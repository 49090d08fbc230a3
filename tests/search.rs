use tile_solver::board::Board;
use tile_solver::model::{DOWN, LEFT, NO_DIRECTION, RIGHT, UP};
use tile_solver::solver::solve_main;
use tile_solver::tile::{Tile, BLANK_TILE};

fn tiles_of(symbols: &[i32]) -> Vec<Tile> {
    symbols.iter().map(|&s| Tile::new(s)).collect()
}

/// Apply `moves` to a board of side `n` with `symbols`, checking that each
/// move stays on the grid, and give back the tiles.
fn replay(n: i32, symbols: &[i32], moves: &str) -> Vec<Tile> {
    let mut board = Board::new(n, None, 0, tiles_of(symbols));
    for m in moves.chars() {
        let b = board.blank_index;
        let on_grid = match m {
            'U' => b - n >= 0,
            'D' => b + n < n * n,
            'L' => b % n != 0,
            'R' => (b + 1) % n != 0,
            _ => false,
        };
        assert!(on_grid, "move {} leaves the grid", m);
        board.move_blank_tile(m);
    }
    board.tiles
}

#[test]
fn solve_already_solved_board_gives_no_moves() {
    let r = solve_main(3, tiles_of(&[1, 2, 3, 4, 5, 6, 7, 8, BLANK_TILE]));
    assert_eq!(r, Some(String::new()));
}

#[test]
fn solve_scrambled_board_optimally_and_round_trip() {
    let start = [8, 4, 6, 3, 7, 1, 5, 2, BLANK_TILE];
    let moves = solve_main(3, tiles_of(&start)).unwrap();
    // 26 is the fewest moves for this board.
    assert_eq!(moves.len(), 26);
    assert_eq!(replay(3, &start, &moves), Tile::generate_tiles(3));
}

#[test]
fn solve_board_one_move_away() {
    let start = [1, 2, 3, 4, 5, 6, 7, BLANK_TILE, 8];
    let moves = solve_main(3, tiles_of(&start)).unwrap();
    assert_eq!(moves, "R");
    assert_eq!(replay(3, &start, &moves), Tile::generate_tiles(3));
}

#[test]
fn solve_board_of_side_one() {
    assert_eq!(solve_main(1, tiles_of(&[BLANK_TILE])), Some(String::new()));
}

#[test]
fn solve_small_board_round_trip() {
    let start = [BLANK_TILE, 3, 2, 1];
    let moves = solve_main(2, tiles_of(&start)).unwrap();
    assert_eq!(replay(2, &start, &moves), Tile::generate_tiles(2));
}

#[test]
fn solve_unsolvable_board_gives_none() {
    assert_eq!(solve_main(2, tiles_of(&[2, 1, 3, BLANK_TILE])), None);
}

#[test]
fn solve_fifteen_puzzle_round_trip() {
    let start = [1, 2, 3, 4, 5, 6, 7, 8, 9, 10, 11, 12, 13, BLANK_TILE, 14, 15];
    let moves = solve_main(4, tiles_of(&start)).unwrap();
    assert_eq!(moves, "RR");
    let start_2 = [1, 2, 3, 4, 5, 6, BLANK_TILE, 8, 9, 10, 7, 12, 13, 14, 11, 15];
    let moves_2 = solve_main(4, tiles_of(&start_2)).unwrap();
    assert_eq!(moves_2.len(), 3);
    assert_eq!(replay(4, &start_2, &moves_2), Tile::generate_tiles(4));
}

#[test]
fn moves_offered_at_corner_edge_and_inside() {
    let solved = Board::new(3, None, -1, vec![]);
    // Corner: two moves.
    let corner = Board::new(3, Some(&solved), 0, tiles_of(&[BLANK_TILE, 1, 2, 3, 4, 5, 6, 7, 8]));
    assert_eq!(corner.get_moves(), [DOWN, RIGHT]);
    // Edge: three moves.
    let edge = Board::new(3, Some(&solved), 0, tiles_of(&[1, BLANK_TILE, 2, 3, 4, 5, 6, 7, 8]));
    assert_eq!(edge.get_moves(), [DOWN, LEFT, RIGHT]);
    // Inside: four moves, less the one straight back.
    let mut inside = Board::new(3, Some(&solved), 0, tiles_of(&[1, 2, 3, 4, BLANK_TILE, 5, 6, 7, 8]));
    assert_eq!(inside.get_moves(), [UP, DOWN, LEFT, RIGHT]);
    inside.last_direction = LEFT;
    assert_eq!(inside.get_moves(), [UP, DOWN, LEFT]);
    inside.last_direction = NO_DIRECTION;
    assert_eq!(inside.get_moves().len(), 4);
}

#[test]
fn move_then_opposite_restores_tiles() {
    let start = [8, 4, 6, 3, 7, 1, 5, 2, BLANK_TILE];
    let mut board = Board::new(3, None, 0, tiles_of(&start));
    board.move_blank_tile(UP);
    assert_ne!(board.tiles, tiles_of(&start));
    board.move_blank_tile(DOWN);
    assert_eq!(board.tiles, tiles_of(&start));
    assert_eq!(board.blank_index, 8);
    assert_eq!(board.last_direction, DOWN);
    board.move_blank_tile(LEFT);
    board.move_blank_tile(RIGHT);
    assert_eq!(board.tiles, tiles_of(&start));
}

#[test]
fn linear_conflicts_are_even_and_manhattan_zero_only_when_solved() {
    let solved = Board::new(3, None, -1, vec![]);
    let swapped = Board::new(3, Some(&solved), 0, tiles_of(&[2, 1, 3, 4, 5, 6, 7, 8, BLANK_TILE]));
    assert_eq!(swapped._linear_conflicts(), 2);
    assert_eq!(swapped._manhattan_cost(), 2);
    assert!(!swapped.is_solved());
    let reversed = Board::new(3, Some(&solved), 0, tiles_of(&[3, 2, 1, 6, 5, 4, BLANK_TILE, 8, 7]));
    let c = reversed._linear_conflicts();
    assert!(c >= 0 && c % 2 == 0);
    assert_eq!(c, 6);
    let done = Board::new(3, Some(&solved), 0, tiles_of(&[1, 2, 3, 4, 5, 6, 7, 8, BLANK_TILE]));
    assert_eq!(done._manhattan_cost(), 0);
    assert_eq!(done._linear_conflicts(), 0);
    assert!(done.is_solved());
}

#[test]
fn each_move_changes_manhattan_by_one() {
    let solved = Board::new(3, None, -1, vec![]);
    let mut board = Board::new(3, Some(&solved), 0, tiles_of(&[8, 4, 6, 3, 7, 1, 5, 2, BLANK_TILE]));
    let before = board._manhattan_cost();
    board.move_blank_tile(UP);
    let after = board._manhattan_cost();
    assert_eq!((after - before).abs(), 1);
    let before = after;
    board.move_blank_tile(LEFT);
    assert_eq!((board._manhattan_cost() - before).abs(), 1);
}

#[test]
fn cost_is_heuristic_plus_depth() {
    let solved = Board::new(3, None, -1, vec![]);
    let board = Board::new(3, Some(&solved), 4, tiles_of(&[1, 2, 3, 4, 5, 6, 7, BLANK_TILE, 8]));
    assert_eq!(board.cost, 5);
    assert_eq!(board.get_cost(), 5);
    let no_goal = Board::new(3, None, 4, tiles_of(&[1, 2, 3, 4, 5, 6, 7, BLANK_TILE, 8]));
    assert_eq!(no_goal.cost, -1);
    assert_eq!(no_goal.path, "");
}

#[test]
fn previously_encountered_boards_are_kept_once() {
    let solved = Board::new(3, None, -1, vec![]);
    let a = Board::new(3, Some(&solved), 0, tiles_of(&[8, 4, 6, 3, 7, 1, 5, 2, BLANK_TILE]));
    let mut b = a.clone();
    b.move_blank_tile(UP);
    let mut seen: Vec<Board> = Vec::new();
    assert!(!a.previously_encountered(&seen));
    a.add_to_previously_encountered(&mut seen);
    assert!(a.previously_encountered(&seen));
    assert!(!b.previously_encountered(&seen));
    a.add_to_previously_encountered(&mut seen);
    assert_eq!(seen.len(), 1);
    b.add_to_previously_encountered(&mut seen);
    assert_eq!(seen.len(), 2);
    Board::reset_previous_boards(&mut seen);
    assert_eq!(seen.len(), 0);
    assert!(!a.previously_encountered(&seen));
}

#[test]
fn shuffle_keeps_a_solvable_permutation() {
    let solved = Board::new(3, None, -1, vec![]);
    let mut board = Board::new(3, Some(&solved), 0, vec![]);
    board.shuffle(30);
    let mut symbols: Vec<i32> = board.tiles.iter().map(|t| t.symbol).collect();
    assert!(board.tiles[board.blank_index as usize].is_blank());
    symbols.sort();
    assert_eq!(symbols, vec![-1, 1, 2, 3, 4, 5, 6, 7, 8]);
    let moves = solve_main(3, board.tiles.clone()).unwrap();
    assert!(moves.len() <= 30);
}

#[test]
fn solve_board_one_up_move_away() {
    let start = [1, 2, 3, 4, 5, BLANK_TILE, 7, 8, 6];
    assert_eq!(solve_main(3, tiles_of(&start)), Some("D".to_string()));
}

#[test]
fn shuffle_by_zero_or_fewer_moves_changes_nothing() {
    let solved = Board::new(3, None, -1, vec![]);
    let mut board = Board::new(3, Some(&solved), 0, vec![]);
    board.shuffle(0);
    assert_eq!(board.tiles, Tile::generate_tiles(3));
    board.shuffle(-3);
    assert_eq!(board.tiles, Tile::generate_tiles(3));
    assert_eq!(board.last_direction, NO_DIRECTION);
    board.shuffle(1);
    assert_ne!(board.tiles, Tile::generate_tiles(3));
    assert!(board.last_direction == UP || board.last_direction == LEFT);
}

#[test]
fn cost_can_fall_along_a_move_with_linear_conflicts() {
    let solved = Board::new(4, None, -1, vec![]);
    let symbols = [4, 5, 6, 14, 1, 10, 7, 3, 11, BLANK_TILE, 13, 9, 15, 2, 8, 12];
    let parent = Board::new(4, Some(&solved), 0, tiles_of(&symbols));
    assert_eq!(parent._manhattan_cost(), 33);
    assert_eq!(parent._linear_conflicts(), 4);
    assert_eq!(parent.cost, 37);
    let mut child = parent.clone();
    child.move_blank_tile(UP);
    child.depth = parent.depth + 1;
    assert_eq!(child._manhattan_cost(), 32);
    assert_eq!(child._linear_conflicts(), 2);
    assert_eq!(child.get_cost(), 35);
    assert!(child.get_cost() < parent.cost);
}

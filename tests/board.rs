use std::collections::HashMap;
use tile_solver::board::{opposite_direction, Board};
use tile_solver::model::{DOWN, LEFT, RIGHT, UP};
use tile_solver::solver::pop_lowest_cost;
use tile_solver::tile::{Tile, BLANK_TILE};

/// Test opposite directions hashmap
#[test]
fn test_opposite_directions_hashmap() {
    assert_eq!(opposite_direction(UP).unwrap(), DOWN);
    assert_eq!(opposite_direction(DOWN).unwrap(), UP);
    assert_eq!(opposite_direction(RIGHT).unwrap(), LEFT);
    assert_eq!(opposite_direction(LEFT).unwrap(), RIGHT);
}

/// Test board construction
#[test]
fn test_board_construction() {
    let solved_board = Board::new(3, None, -1, vec![]);
    let tiles = vec![
        Tile::new(8), Tile::new(4), Tile::new(6),
        Tile::new(3), Tile::new(7), Tile::new(1),
        Tile::new(5), Tile::new(2), Tile::new(BLANK_TILE)
    ];
    let board = Board::new(
        3,
        Some(&solved_board),
        -1,
        tiles.clone());
    assert_eq!(board.n, 3);
    assert_eq!(board.n2, 9);
    assert_eq!(board.last_direction, '\0');
    assert_eq!(board.blank_index, 8);
    assert_eq!(board.tiles, vec![
        Tile::new(8), Tile::new(4), Tile::new(6),
        Tile::new(3), Tile::new(7), Tile::new(1),
        Tile::new(5), Tile::new(2), Tile::new(BLANK_TILE)
    ]);
    assert_eq!(board.solved_board.unwrap().tiles, vec![
        Tile::new(1), Tile::new(2), Tile::new(3),
        Tile::new(4), Tile::new(5), Tile::new(6),
        Tile::new(7), Tile::new(8), Tile::new(BLANK_TILE)
    ]);
    assert_eq!(board.depth, -1);
    assert_eq!(board.cost, 17);
    assert_eq!(board.path, "");
}

/// Test board cloning
#[test]
fn test_board_clone() {
    let solved_board = Board::new(3, None, -1, vec![]);
    let tiles = vec![
        Tile::new(8), Tile::new(4), Tile::new(6),
        Tile::new(3), Tile::new(7), Tile::new(1),
        Tile::new(5), Tile::new(2), Tile::new(BLANK_TILE)
    ];
    let board = Board::new(
        3,
        Some(&solved_board),
        -1,
        tiles.clone());
    let board_2 = board.clone();
    assert_eq!(board.tiles, board_2.tiles);
    assert_eq!(board.solved_board.unwrap(), board_2.solved_board.unwrap());
    assert_eq!(board.blank_index, board_2.blank_index);
    assert_eq!(board.last_direction, board_2.last_direction);
    assert_eq!(board.n, board_2.n);
    assert_eq!(board.n2, board_2.n2);
}

/// Test board in conflict
#[test]
fn test_board_in_conflict() {
    assert!(Board::_in_conflict(0, 1, 1, 0));
    assert!(Board::_in_conflict(0, 1, 2, 1));
    assert!(!Board::_in_conflict(0, 1, 0, 1));
    assert!(!Board::_in_conflict(0, 2, 1, 2));
}

/// Test board index
#[test]
fn test_board_index() {
    let solved_board = Board::new(3, None, -1, vec![]);
    let tiles = vec![
        Tile::new(8), Tile::new(4), Tile::new(6),
        Tile::new(3), Tile::new(7), Tile::new(1),
        Tile::new(5), Tile::new(2), Tile::new(BLANK_TILE)
    ];
    let board = Board::new(
        3,
        Some(&solved_board),
        -1,
        tiles.clone());
    assert_eq!(board.index(0, 0, None), Tile::new(8));
    assert_eq!(board.index(0, 1, None), Tile::new(4));
    assert_eq!(board.index(0, 2, None), Tile::new(6));
    assert_eq!(board.index(2, 2, None), Tile::new(BLANK_TILE));
    assert_eq!(board.index(1, 1, None), Tile::new(7));
}

/// Test board to string
#[test]
fn test_board_to_string() {
    let solved_board = Board::new(3, None, -1, vec![]);
    let tiles = vec![
        Tile::new(8), Tile::new(4), Tile::new(6),
        Tile::new(3), Tile::new(7), Tile::new(1),
        Tile::new(5), Tile::new(2), Tile::new(BLANK_TILE)
    ];
    let board = Board::new(
        3,
        Some(&solved_board),
        -1,
        tiles.clone());
    assert_eq!(
        board.to_string(),
        "Tile 8, Tile 4, Tile 6\nTile 3, Tile 7, Tile 1\nTile 5, Tile 2,       \n".to_owned()
    );
}

/// Test board get blank index
#[test]
fn test_board_get_blank_index() {
    let solved_board = Board::new(3, None, -1, vec![]);
    let tiles = vec![
        Tile::new(8), Tile::new(4), Tile::new(6),
        Tile::new(3), Tile::new(BLANK_TILE), Tile::new(1),
        Tile::new(5), Tile::new(2), Tile::new(7)
    ];
    let board = Board::new(
        3,
        Some(&solved_board),
        -1,
        tiles.clone());
    assert_eq!(board.get_blank_index(), 4);
}

/// Test board is valid move
#[test]
fn test_board_is_valid_move() {
    let solved_board = Board::new(3, None, -1, vec![]);
    let tiles = vec![
        Tile::new(8), Tile::new(4), Tile::new(6),
        Tile::new(3), Tile::new(7), Tile::new(1),
        Tile::new(5), Tile::new(2), Tile::new(BLANK_TILE)
    ];
    let board = Board::new(
        3,
        Some(&solved_board),
        -1,
        tiles.clone());
    assert!(board.is_valid_move(UP));
    assert!(!board.is_valid_move(DOWN));
    assert!(board.is_valid_move(LEFT));
    assert!(!board.is_valid_move(RIGHT));
    let tiles_2 = vec![
        Tile::new(8), Tile::new(4), Tile::new(6),
        Tile::new(3), Tile::new(BLANK_TILE), Tile::new(1),
        Tile::new(5), Tile::new(2), Tile::new(7)
    ];
    let board_2 = Board::new(
        3,
        Some(&solved_board),
        -1,
        tiles_2.clone());
    assert!(board_2.is_valid_move(UP));
    assert!(board_2.is_valid_move(DOWN));
    assert!(board_2.is_valid_move(LEFT));
    assert!(board_2.is_valid_move(RIGHT));
    let tiles_3 = vec![
        Tile::new(BLANK_TILE), Tile::new(4), Tile::new(6),
        Tile::new(3), Tile::new(8), Tile::new(1),
        Tile::new(5), Tile::new(2), Tile::new(7)
    ];
    let board_3 = Board::new(
        3,
        Some(&solved_board),
        -1,
        tiles_3.clone());
    assert!(!board_3.is_valid_move(UP));
    assert!(board_3.is_valid_move(DOWN));
    assert!(!board_3.is_valid_move(LEFT));
    assert!(board_3.is_valid_move(RIGHT));
}

/// Test board get moves
#[test]
fn test_board_get_moves() {
    let solved_board = Board::new(3, None, -1, vec![]);
    let tiles = vec![
        Tile::new(8), Tile::new(4), Tile::new(6),
        Tile::new(3), Tile::new(7), Tile::new(1),
        Tile::new(5), Tile::new(2), Tile::new(BLANK_TILE)
    ];
    let board = Board::new(
        3,
        Some(&solved_board),
        -1,
        tiles.clone());
    assert_eq!(board.get_moves(), [UP, LEFT]);
    let tiles_2 = vec![
        Tile::new(8), Tile::new(4), Tile::new(6),
        Tile::new(3), Tile::new(BLANK_TILE), Tile::new(1),
        Tile::new(5), Tile::new(2), Tile::new(7)
    ];
    let board_2 = Board::new(
        3,
        Some(&solved_board),
        -1,
        tiles_2.clone());
    assert_eq!(board_2.get_moves(), [UP, DOWN, LEFT, RIGHT]);
    let tiles_3 = vec![
        Tile::new(BLANK_TILE), Tile::new(4), Tile::new(6),
        Tile::new(3), Tile::new(8), Tile::new(1),
        Tile::new(5), Tile::new(2), Tile::new(7)
    ];
    let board_3 = Board::new(
        3,
        Some(&solved_board),
        -1,
        tiles_3.clone());
    assert_eq!(board_3.get_moves(), [DOWN, RIGHT]);
}

/// Test moving indices in each direction
#[test]
fn test_board_index_translation() {
    let solved_board = Board::new(3, None, -1, vec![]);
    let tiles = vec![
        Tile::new(8), Tile::new(4), Tile::new(6),
        Tile::new(3), Tile::new(7), Tile::new(1),
        Tile::new(5), Tile::new(2), Tile::new(BLANK_TILE)
    ];
    let board = Board::new(
        3,
        Some(&solved_board),
        -1,
        tiles.clone());
    assert_eq!(board.translate_index(0, DOWN), 3);
    assert_eq!(board.translate_index(0, RIGHT), 1);
    assert_eq!(board.translate_index(8, UP), 5);
    assert_eq!(board.translate_index(8, LEFT), 7);
}

/// Test board move blank tile - UP
#[test]
fn test_board_move_blank_tile_up() {
    let solved_board = Board::new(3, None, -1, vec![]);
    let tiles = vec![
        Tile::new(8), Tile::new(4), Tile::new(6),
        Tile::new(3), Tile::new(7), Tile::new(1),
        Tile::new(5), Tile::new(2), Tile::new(BLANK_TILE)
    ];
    let mut board = Board::new(
        3,
        Some(&solved_board),
        -1,
        tiles.clone());
    board.move_blank_tile(UP);
    assert_eq!(board.tiles, vec![
        Tile::new(8), Tile::new(4), Tile::new(6),
        Tile::new(3), Tile::new(7), Tile::new(BLANK_TILE),
        Tile::new(5), Tile::new(2), Tile::new(1)
    ])
}

/// Test board move blank tile - LEFT
#[test]
fn test_board_move_blank_tile_left() {
    let solved_board = Board::new(3, None, -1, vec![]);
    let tiles = vec![
        Tile::new(8), Tile::new(4), Tile::new(6),
        Tile::new(3), Tile::new(7), Tile::new(1),
        Tile::new(5), Tile::new(2), Tile::new(BLANK_TILE)
    ];
    let mut board = Board::new(
        3,
        Some(&solved_board),
        -1,
        tiles.clone());
    board.move_blank_tile(LEFT);
    assert_eq!(board.tiles, vec![
        Tile::new(8), Tile::new(4), Tile::new(6),
        Tile::new(3), Tile::new(7), Tile::new(1),
        Tile::new(5), Tile::new(BLANK_TILE), Tile::new(2)
    ])
}

/// Test board move blank tile - DOWN
#[test]
fn test_board_move_blank_tile_down() {
    let solved_board = Board::new(3, None, -1, vec![]);
    let tiles = vec![
        Tile::new(BLANK_TILE), Tile::new(4), Tile::new(6),
        Tile::new(3), Tile::new(8), Tile::new(1),
        Tile::new(5), Tile::new(2), Tile::new(7)
    ];
    let mut board = Board::new(
        3,
        Some(&solved_board),
        -1,
        tiles.clone());
    board.move_blank_tile(DOWN);
    assert_eq!(board.tiles, vec![
        Tile::new(3), Tile::new(4), Tile::new(6),
        Tile::new(BLANK_TILE), Tile::new(8), Tile::new(1),
        Tile::new(5), Tile::new(2), Tile::new(7)
    ])
}

/// Test board move blank tile - RIGHT
#[test]
fn test_board_move_blank_tile_right() {
    let solved_board = Board::new(3, None, -1, vec![]);
    let tiles = vec![
        Tile::new(BLANK_TILE), Tile::new(4), Tile::new(6),
        Tile::new(3), Tile::new(8), Tile::new(1),
        Tile::new(5), Tile::new(2), Tile::new(7)
    ];
    let mut board = Board::new(
        3,
        Some(&solved_board),
        -1,
        tiles.clone());
    board.move_blank_tile(RIGHT);
    assert_eq!(board.tiles, vec![
        Tile::new(4), Tile::new(BLANK_TILE), Tile::new(6),
        Tile::new(3), Tile::new(8), Tile::new(1),
        Tile::new(5), Tile::new(2), Tile::new(7)
    ])
}

/// Test board get manhattan cost
#[test]
fn test_board_get_manhattan_cost() {
    let solved_board = Board::new(3, None, -1, vec![]);
    let tiles = vec![
        Tile::new(8), Tile::new(4), Tile::new(6),
        Tile::new(3), Tile::new(7), Tile::new(1),
        Tile::new(5), Tile::new(2), Tile::new(BLANK_TILE)
    ];
    let board = Board::new(
        3,
        Some(&solved_board),
        -1,
        tiles.clone());
    assert_eq!(board._manhattan_cost(), 18);
}

/// Test board shuffle
#[test]
fn test_board_shuffle() {
    let solved_board = Board::new(3, None, -1, vec![]);
    let tiles = vec![
        Tile::new(8), Tile::new(4), Tile::new(6),
        Tile::new(3), Tile::new(7), Tile::new(1),
        Tile::new(5), Tile::new(2), Tile::new(BLANK_TILE)
    ];
    let mut board = Board::new(
        3,
        Some(&solved_board),
        -1,
        tiles.clone());
    board.shuffle(1000);
    println!("{}", board.to_string());
    assert_ne!(board.tiles, vec![
        Tile::new(8), Tile::new(4), Tile::new(6),
        Tile::new(3), Tile::new(7), Tile::new(1),
        Tile::new(5), Tile::new(2), Tile::new(BLANK_TILE)
    ]);
}

/// Test board is solved
#[test]
fn test_board_is_solved() {
    let solved_board = Board::new(3, None, -1, vec![]);
    let tiles = vec![
        Tile::new(8), Tile::new(4), Tile::new(6),
        Tile::new(3), Tile::new(7), Tile::new(1),
        Tile::new(5), Tile::new(2), Tile::new(BLANK_TILE)
    ];
    let mut board = Board::new(
        3,
        Some(&solved_board),
        -1,
        tiles.clone());
    assert!(!board.is_solved());
    let tiles_2 = vec![
        Tile::new(1), Tile::new(2), Tile::new(3),
        Tile::new(4), Tile::new(5), Tile::new(6),
        Tile::new(7), Tile::new(8), Tile::new(BLANK_TILE)
    ];
    let mut board_2 = Board::new(
        3,
        Some(&solved_board),
        -1,
        tiles_2.clone());
    assert!(board_2.is_solved());
}

/// Test board create tile row indices map
#[test]
fn test_create_tile_row_indices_map() {
    let solved_board = Board::new(3, None, -1, vec![]);
    let tiles = vec![
        Tile::new(8), Tile::new(4), Tile::new(6),
        Tile::new(3), Tile::new(7), Tile::new(1),
        Tile::new(5), Tile::new(2), Tile::new(BLANK_TILE)
    ];
    let mut board = Board::new(
        3,
        Some(&solved_board),
        -1,
        tiles.clone());
    let mut row_map: HashMap<i32, i32> = HashMap::new();
    row_map.insert(8, 0);
    row_map.insert(4, 1);
    row_map.insert(6, 2);
    row_map.insert(3, 0);
    row_map.insert(7, 1);
    row_map.insert(1, 2);
    row_map.insert(5, 0);
    row_map.insert(2, 1);
    row_map.insert(BLANK_TILE, 2);
    assert_eq!(board._create_tile_row_indices_map(&board), row_map)
}

/// Test board create tile column indices map
#[test]
fn test_create_tile_column_indices_map() {
    let solved_board = Board::new(3, None, -1, vec![]);
    let tiles = vec![
        Tile::new(8), Tile::new(4), Tile::new(6),
        Tile::new(3), Tile::new(7), Tile::new(1),
        Tile::new(5), Tile::new(2), Tile::new(BLANK_TILE)
    ];
    let mut board = Board::new(
        3,
        Some(&solved_board),
        -1,
        tiles.clone());
    let mut col_map: HashMap<i32, i32> = HashMap::new();
    col_map.insert(8, 0);
    col_map.insert(3, 1);
    col_map.insert(5, 2);
    col_map.insert(4, 0);
    col_map.insert(7, 1);
    col_map.insert(2, 2);
    col_map.insert(6, 0);
    col_map.insert(1, 1);
    col_map.insert(BLANK_TILE, 2);
    assert_eq!(board._create_tile_column_indices_map(&board), col_map)
}

/// Test board linear conflicts
#[test]
fn test_board_linear_conflicts() {
    let solved_board = Board::new(3, None, -1, vec![]);
    let tiles = vec![
        Tile::new(8), Tile::new(4), Tile::new(6),
        Tile::new(1), Tile::new(7), Tile::new(3),
        Tile::new(5), Tile::new(2), Tile::new(BLANK_TILE)
    ];
    let mut board = Board::new(
        3,
        Some(&solved_board),
        -1,
        tiles.clone());
    assert_eq!(board._linear_conflicts(), 2);
}

/// Test board get cost
#[test]
fn test_board_get_cost() {
    let solved_board = Board::new(3, None, -1, vec![]);
    let tiles = vec![
        Tile::new(8), Tile::new(4), Tile::new(6),
        Tile::new(3), Tile::new(7), Tile::new(1),
        Tile::new(5), Tile::new(2), Tile::new(BLANK_TILE)
    ];
    let mut board = Board::new(
        3,
        Some(&solved_board),
        -1,
        tiles.clone());
    board.depth = 5;
    assert_eq!(board.get_cost(), 23);
}

/// Test board priority queue
/// - Ensure the lowest cost board is taken out first
#[test]
fn test_board_priority_queue() {
    let solved_board = Board::new(3, None, -1, vec![]);
    let tiles = vec![
        Tile::new(8), Tile::new(4), Tile::new(6),
        Tile::new(3), Tile::new(7), Tile::new(1),
        Tile::new(5), Tile::new(2), Tile::new(BLANK_TILE)
    ];
    // Create some boards with manually entered costs and shuffle to make them different
    let mut board = Board::new(
        3, Some(&solved_board), -1, tiles.clone());
    board.cost = 17;
    board.shuffle(1000);
    let mut board_2 = Board::new(
        3, Some(&solved_board), -1, tiles.clone());
    board_2.cost = 5;
    board_2.shuffle(1000);
    let mut board_3 = Board::new(
        3, Some(&solved_board), -1, tiles.clone());
    board_3.cost = 1;
    board_3.shuffle(1000);
    let mut board_4 = Board::new(
        3, Some(&solved_board), -1, tiles.clone());
    board_4.cost = 5;
    board_4.shuffle(1000);
    let mut board_5 = Board::new(
        3, Some(&solved_board), -1, tiles.clone());
    board_5.cost = 7;
    board_5.shuffle(1000);
    // Assert all the costs for verification purposes
    assert_eq!(board.cost, 17);
    assert_eq!(board_2.cost, 5);
    assert_eq!(board_3.cost, 1);
    assert_eq!(board_4.cost, 5);
    assert_eq!(board_5.cost, 7);
    // Ensure they are all different
    let boards = [&board, &board_2, &board_3, &board_4, &board_5];
    for i in 0..5 {
        for j in i + 1..5 {
            assert_ne!(boards[i], boards[j]);
        }
    }
    // Load into the frontier
    let mut pq: Vec<Board> = Vec::new();
    pq.push(board.clone());
    pq.push(board_2.clone());
    pq.push(board_3.clone());
    pq.push(board_4.clone());
    pq.push(board_5.clone());
    // Pull out and assert the order in which they come out
    assert_eq!(pop_lowest_cost(&mut pq), board_3);
    let same = pop_lowest_cost(&mut pq);
    assert!(same == board_2 || same == board_4);
    let same_2 = pop_lowest_cost(&mut pq);
    assert!(same_2 == board_2 || same_2 == board_4);
    assert_eq!(pop_lowest_cost(&mut pq), board_5);
    assert_eq!(pop_lowest_cost(&mut pq), board);
}

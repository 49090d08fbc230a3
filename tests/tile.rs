use tile_solver::tile::{Tile, BLANK_TILE};

/// Test tile construction
#[test]
fn test_tile_construction() {
    let tile = Tile::new(1);
    assert_eq!(tile.symbol, 1);
}

/// Test tile to string
#[test]
fn test_tile_to_string() {
    let tile = Tile::new(1);
    assert_eq!(tile.to_string(), "Tile 1");
    let tile_2 = Tile::new(BLANK_TILE);
    assert_eq!(tile_2.to_string(), "      ");
}

/// Test tile equivalence
#[test]
fn test_tile_equivalence() {
    let tile = Tile::new(1);
    let tile_2 = Tile::new(2);
    assert_ne!(tile, tile_2);
    let tile_3 = Tile::new(1);
    assert_eq!(tile, tile_3);
}

/// Test tile is blank
#[test]
fn test_tile_is_blank() {
    let tile = Tile::new(1);
    assert!(!tile.is_blank());
    let tile_2 = Tile::new(BLANK_TILE);
    assert!(tile_2.is_blank());
}

/// Test generating the tiles of a solved board
#[test]
fn test_tile_generate_tiles() {
    let tiles = Tile::generate_tiles(2);
    assert_eq!(tiles, [Tile::new(1), Tile::new(2), Tile::new(3), Tile::new(BLANK_TILE)]);
}

#[test]
fn tile_labels_of_larger_and_negative_symbols() {
    assert_eq!(Tile::new(15).to_string(), "Tile 15");
    assert_eq!(Tile::new(120).to_string(), "Tile 120");
    assert_eq!(Tile::new(-7).to_string(), "Tile -7");
    assert_eq!(Tile::new(0).to_string(), "Tile 0");
}

#[test]
fn generate_tiles_of_side_one_and_three() {
    assert_eq!(Tile::generate_tiles(1), [Tile::new(BLANK_TILE)]);
    let tiles = Tile::generate_tiles(3);
    assert_eq!(tiles.len(), 9);
    assert_eq!(tiles[0], Tile::new(1));
    assert_eq!(tiles[7], Tile::new(8));
    assert!(tiles[8].is_blank());
}

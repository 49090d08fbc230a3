use tile_solver::decode::{parse_board_info, valid_board};
use tile_solver::solver::solve_main;
use tile_solver::tile::{Tile, BLANK_TILE};

fn tiles_of(symbols: &[i32]) -> Vec<Tile> {
    symbols.iter().map(|&s| Tile::new(s)).collect()
}

#[test]
fn parse_size_and_tiles() {
    let (n, tiles) = parse_board_info("3,8,4,6,3,7,1,5,2,-1").unwrap();
    assert_eq!(n, 3);
    assert_eq!(tiles, tiles_of(&[8, 4, 6, 3, 7, 1, 5, 2, BLANK_TILE]));
    assert!(valid_board(n, &tiles));
    assert_eq!(solve_main(n, tiles).unwrap().len(), 26);
}

#[test]
fn parse_signs_and_limits() {
    let (n, tiles) = parse_board_info("+2,1,+2,3,-1").unwrap();
    assert_eq!(n, 2);
    assert_eq!(tiles, tiles_of(&[1, 2, 3, BLANK_TILE]));
    let (m, rest) = parse_board_info("-2147483648").unwrap();
    assert_eq!(m, i32::MIN);
    assert!(rest.is_empty());
    let (m, _) = parse_board_info("2147483647").unwrap();
    assert_eq!(m, i32::MAX);
    assert_eq!(parse_board_info("2147483648"), None);
    assert_eq!(parse_board_info("99999999999999999999"), None);
}

#[test]
fn parse_rejects_malformed_fields() {
    assert_eq!(parse_board_info(""), None);
    assert_eq!(parse_board_info("3,a"), None);
    assert_eq!(parse_board_info("3,,1"), None);
    assert_eq!(parse_board_info("3,1,"), None);
    assert_eq!(parse_board_info("-"), None);
    assert_eq!(parse_board_info(" 3"), None);
    assert_eq!(parse_board_info("3,1-"), None);
}

#[test]
fn valid_board_checks_the_permutation() {
    assert!(valid_board(2, &tiles_of(&[1, 2, 3, BLANK_TILE])));
    assert!(valid_board(1, &tiles_of(&[BLANK_TILE])));
    // Wrong count.
    assert!(!valid_board(2, &tiles_of(&[1, 2, BLANK_TILE])));
    // Repeated symbol.
    assert!(!valid_board(2, &tiles_of(&[1, 1, 3, BLANK_TILE])));
    // No blank.
    assert!(!valid_board(2, &tiles_of(&[1, 2, 3, 3])));
    // Two blanks.
    assert!(!valid_board(2, &tiles_of(&[1, BLANK_TILE, 3, BLANK_TILE])));
    // Symbol out of range.
    assert!(!valid_board(2, &tiles_of(&[1, 2, 4, BLANK_TILE])));
    assert!(!valid_board(2, &tiles_of(&[0, 2, 3, BLANK_TILE])));
    // Side out of range.
    assert!(!valid_board(0, &tiles_of(&[])));
    assert!(!valid_board(1001, &tiles_of(&[BLANK_TILE])));
}

#[test]
fn parse_and_solve_board_one_move_away() {
    let (n, tiles) = parse_board_info("3,1,2,3,4,5,6,7,-1,8").unwrap();
    assert!(valid_board(n, &tiles));
    assert_eq!(solve_main(n, tiles), Some("R".to_string()));
}

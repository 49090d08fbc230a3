//! Tiles: the numbered pieces of the puzzle and the blank cell.
use vstd::prelude::*;
use vstd::string::StringExecFns;

use crate::text::{decimal, push_decimal};

verus! {

/// Symbol carried by the blank cell.
pub const BLANK_TILE: i32 = -1;

/// One piece of the puzzle, identified by its symbol; the blank cell carries
/// `BLANK_TILE`.
#[derive(Debug, Hash, PartialEq, Eq, Structural, Copy, Clone)]
pub struct Tile {
    pub symbol: i32,
}

/// The tiles of the solved board of side `n`: `1, 2, ..., n*n - 1`, then the
/// blank.
pub open spec fn solved_tiles(n: int) -> Seq<Tile> {
    Seq::new(
        (n * n) as nat,
        |i: int| if i + 1 < n * n { Tile { symbol: (i + 1) as i32 } } else { Tile { symbol: BLANK_TILE } },
    )
}

/// The label of a tile: `Tile <symbol>`, or six spaces for the blank.
pub open spec fn tile_label(t: Tile) -> Seq<char> {
    if t.symbol == BLANK_TILE {
        seq![' ', ' ', ' ', ' ', ' ', ' ']
    } else {
        seq!['T', 'i', 'l', 'e', ' '] + decimal(t.symbol as int)
    }
}

impl Tile {
    /// Construct a new tile.
    pub fn new(symbol: i32) -> (r: Tile)
        ensures
            r.symbol == symbol,
    {
        Tile { symbol }
    }

    pub open spec fn spec_is_blank(&self) -> bool {
        self.symbol == BLANK_TILE
    }

    /// Whether the tile is the blank cell.
    #[verifier::when_used_as_spec(spec_is_blank)]
    pub fn is_blank(&self) -> (r: bool)
        ensures
            r == self.spec_is_blank(),
    {
        self.symbol == BLANK_TILE
    }

    /// The tiles of a solved board of side `n`, in row-major order.
    pub fn generate_tiles(n: i32) -> (r: Vec<Tile>)
        requires
            1 <= n,
            n * n <= i32::MAX,
        ensures
            r@ == solved_tiles(n as int),
    {
        let n2: i32 = n * n;
        assert(n2 >= 1) by (nonlinear_arith)
            requires
                n >= 1,
                n2 == n * n,
        ;
        let mut tiles: Vec<Tile> = Vec::with_capacity(n2 as usize);
        let mut i: i32 = 1;
        while i < n2
            invariant
                1 <= i <= n2,
                n2 == n * n,
                tiles@.len() == i - 1,
                forall|k: int| 0 <= k < i - 1 ==> #[trigger] tiles@[k] == solved_tiles(n as int)[k],
            decreases n2 - i,
        {
            tiles.push(Tile::new(i));
            i = i + 1;
        }
        tiles.push(Tile::new(BLANK_TILE));
        assert(tiles@ =~= solved_tiles(n as int));
        tiles
    }

    /// The label of the tile: `Tile <symbol>`, or six spaces for the blank.
    pub fn to_string(&self) -> (r: String)
        ensures
            r@ == tile_label(*self),
    {
        proof {
            reveal_strlit("      ");
            reveal_strlit("Tile ");
        }
        if self.is_blank() {
            let r = String::from_str("      ");
            assert(r@ =~= tile_label(*self));
            return r;
        }
        let mut s = String::from_str("Tile ");
        push_decimal(&mut s, self.symbol);
        assert(s@ =~= tile_label(*self));
        s
    }
}

} // verus!

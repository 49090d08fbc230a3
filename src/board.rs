//! The board: one state of the puzzle and one node of the search tree.
use rand::seq::SliceRandom;
use std::collections::{HashMap, HashSet};
use vstd::prelude::*;

use crate::heuristic::{
    lemma_charged_bound, lemma_goal_index, lemma_manhattan_bound, lemma_manhattan_upto_bound,
    lemma_manhattan_zero, lemma_pair_step_inv, lemma_scan_inv_refl, lemma_scan_line_inv,
    lemma_scan_line_shift, lemma_scan_pairs_blank, lemma_solved_valid, scan_inv,
};
use crate::model::{
    abs, allowed_moves, apply_moves, blank_pos, cell, charged_ok, conflict_maps, conflicts,
    goal_along, goal_index, goal_line, heuristic, in_bounds, in_conflict, is_direction,
    lemma_blank_pos, lemma_cell, lemma_row_col, lemma_side, lemma_some_move_allowed,
    lemma_swap_valid, lemma_translate_in_grid, manhattan, manhattan_upto, move_allowed,
    no_backtrack, opposite,
    pair_step, partial_position_map, position_map, scan_line, scan_lines, scan_pairs, step,
    translate, valid_tiles, DOWN, LEFT, MAX_SIDE, NO_DIRECTION, RIGHT, UP,
};
use crate::tile::{solved_tiles, tile_label, Tile, BLANK_TILE};
use vstd::string::StringExecFns;

verus! {

/// The layout of the board, with the bookkeeping of the search.
///
/// * `n` - side length of the grid
/// * `n2` - number of cells, `n * n`
/// * `last_direction` - direction of the move that reached this board
/// * `solved_board` - the solved board that costs are measured against
/// * `tiles` - the tiles in row-major order
/// * `blank_index` - cell of the blank
/// * `depth` - number of moves from the root of the search
/// * `cost` - heuristic plus depth
/// * `path` - the moves from the root of the search, one character each
#[derive(Debug)]
pub struct Board<'a> {
    pub n: i32,
    pub n2: i32,
    pub last_direction: char,
    pub solved_board: Option<&'a Board<'a>>,
    pub tiles: Vec<Tile>,
    pub blank_index: i32,
    pub depth: i32,
    pub cost: i32,
    pub path: String,
}

/// The direction that undoes `d`, for the four directions.
pub fn opposite_direction(d: char) -> (r: Option<char>)
    ensures
        is_direction(d) ==> r == Some(opposite(d)),
        !is_direction(d) ==> r is None,
{
    if d == UP {
        Some(DOWN)
    } else if d == DOWN {
        Some(UP)
    } else if d == LEFT {
        Some(RIGHT)
    } else if d == RIGHT {
        Some(LEFT)
    } else {
        None
    }
}

/// How far apart two positions on a line are.
fn distance(a: i32, b: i32) -> (r: i32)
    requires
        0 <= a <= MAX_SIDE,
        0 <= b <= MAX_SIDE,
    ensures
        r == abs(a - b),
{
    if a >= b {
        a - b
    } else {
        b - a
    }
}

/// The value that `m` holds for `s`.
fn lookup(m: &HashMap<i32, i32>, s: i32) -> (r: i32)
    requires
        m@.contains_key(s),
    ensures
        r == m@[s],
{
    broadcast use vstd::std_specs::hash::group_hash_axioms;

    *m.get(&s).unwrap()
}

/// The tiles that a new board of side `n` starts with: those given, or the
/// solved tiles where none are given.
pub open spec fn start_tiles(n: int, tiles: Seq<Tile>) -> Seq<Tile> {
    if tiles.len() == 0 {
        solved_tiles(n)
    } else {
        tiles
    }
}

/// The text of the first `k` cells of a board of side `n`: the label of each
/// tile, followed by `, ` within a row and by a newline at its end.
pub open spec fn board_text_upto(n: int, t: Seq<Tile>, k: int) -> Seq<char>
    decreases k,
{
    if k <= 0 {
        Seq::empty()
    } else {
        board_text_upto(n, t, k - 1) + tile_label(t[k - 1]) + if (k - 1) % n == n - 1 {
            seq!['\n']
        } else {
            seq![',', ' ']
        }
    }
}

/// The text of a board of side `n`, row by row.
pub open spec fn board_text(n: int, t: Seq<Tile>) -> Seq<char> {
    board_text_upto(n, t, n * n)
}

/// Relies on rand's `SliceRandom::choose`, drawing with `thread_rng`: on a
/// non-empty slice it returns one of its elements.
#[verifier::external_body]
fn choose_move(moves: &Vec<char>) -> (r: char)
    requires
        moves@.len() > 0,
    ensures
        moves@.contains(r),
{
    *moves.choose(&mut rand::thread_rng()).unwrap()
}

/// Some board of `boards` holds the tiles `t`.
pub open spec fn seen_state(boards: Seq<Board>, t: Seq<Tile>) -> bool {
    exists|i: int| 0 <= i < boards.len() && (#[trigger] boards[i]).tiles@ == t
}

/// The same board state: boards are equal where their tiles are.
pub open spec fn same_state(a: &Board, b: &Board) -> bool {
    a.tiles@ == b.tiles@
}

impl<'a> PartialEq for Board<'a> {
    /// Boards are equal where their tiles are.
    fn eq(&self, other: &Self) -> (r: bool)
        ensures
            r == same_state(self, other),
    {
        if self.tiles.len() != other.tiles.len() {
            return false;
        }
        let mut i: usize = 0;
        while i < self.tiles.len()
            invariant
                self.tiles@.len() == other.tiles@.len(),
                0 <= i <= self.tiles@.len(),
                forall|k: int| 0 <= k < i ==> self.tiles@[k] == other.tiles@[k],
            decreases self.tiles@.len() - i,
        {
            if self.tiles[i] != other.tiles[i] {
                return false;
            }
            i = i + 1;
        }
        proof {
            assert(self.tiles@ =~= other.tiles@);
        }
        true
    }
}

impl<'a> vstd::std_specs::cmp::PartialEqSpecImpl for Board<'a> {
    open spec fn obeys_eq_spec() -> bool {
        true
    }

    open spec fn eq_spec(&self, other: &Self) -> bool {
        same_state(self, other)
    }
}

impl<'a> Clone for Board<'a> {
    fn clone(&self) -> (r: Self)
        ensures
            r.n == self.n,
            r.n2 == self.n2,
            r.last_direction == self.last_direction,
            r.solved_board == self.solved_board,
            r.tiles@ == self.tiles@,
            r.blank_index == self.blank_index,
            r.depth == self.depth,
            r.cost == self.cost,
            r.path@ == self.path@,
    {
        Board {
            n: self.n,
            n2: self.n2,
            last_direction: self.last_direction,
            solved_board: self.solved_board,
            tiles: self.tiles.clone(),
            blank_index: self.blank_index,
            depth: self.depth,
            cost: self.cost,
            path: self.path.clone(),
        }
    }
}

impl<'a> Board<'a> {
    /// Whether two tiles at positions `tile_1` and `tile_2` of one line, whose
    /// goal positions on it are `tile_1_goal` and `tile_2_goal`, stand in the
    /// opposite order.
    pub fn _in_conflict(tile_1: i32, tile_2: i32, tile_1_goal: i32, tile_2_goal: i32) -> (r: bool)
        ensures
            r == in_conflict(tile_1 as int, tile_2 as int, tile_1_goal as int, tile_2_goal as int),
    {
        (tile_1 < tile_2 && tile_1_goal > tile_2_goal) || (tile_1 > tile_2 && tile_1_goal < tile_2_goal)
    }

    /// The board's geometry and tiles agree, and a solved board it refers to
    /// is the solved board of the same side.
    pub open spec fn wf(&self) -> bool {
        &&& 1 <= self.n <= MAX_SIDE
        &&& self.n2 == self.n * self.n
        &&& valid_tiles(self.n as int, self.tiles@)
        &&& 0 <= self.blank_index < self.n2
        &&& self.tiles@[self.blank_index as int].symbol == BLANK_TILE
        &&& self.solved_board is Some ==> {
            &&& self.solved_board->0.n == self.n
            &&& self.solved_board->0.tiles@ == solved_tiles(self.n as int)
        }
    }

    /// Create a board of side `n` holding `tiles`, or the solved tiles where
    /// `tiles` is empty. Where a solved board is given, the cost is computed
    /// against it; else it is -1.
    pub fn new(n: i32, solved_board: Option<&'a Board<'a>>, depth: i32, tiles: Vec<Tile>) -> (r: Board<'a>)
        requires
            1 <= n <= MAX_SIDE,
            tiles@.len() == 0 || valid_tiles(n as int, tiles@),
            solved_board is Some ==> {
                &&& solved_board->0.n == n
                &&& solved_board->0.tiles@ == solved_tiles(n as int)
                &&& depth + heuristic(n as int, start_tiles(n as int, tiles@)) <= i32::MAX
            },
        ensures
            r.wf(),
            r.n == n,
            r.n2 == n * n,
            r.tiles@ == start_tiles(n as int, tiles@),
            r.blank_index == blank_pos(r.tiles@),
            r.last_direction == NO_DIRECTION,
            r.solved_board == solved_board,
            r.depth == depth,
            r.cost == if solved_board is Some {
                heuristic(n as int, r.tiles@) + depth
            } else {
                -1
            },
            r.path@ == Seq::<char>::empty(),
    {
        proof {
            lemma_side(n as int);
            lemma_solved_valid(n as int);
        }
        let mut tiles = tiles;
        if tiles.len() == 0 {
            tiles = Tile::generate_tiles(n);
        }
        let mut board = Board {
            n,
            n2: n * n,
            last_direction: NO_DIRECTION,
            solved_board,
            tiles,
            blank_index: -1,
            depth,
            cost: -1,
            path: String::new(),
        };
        let b = board.get_blank_index();
        proof {
            let k = blank_pos(board.tiles@);
            assert(0 <= k < board.n2 && board.tiles@[k].symbol == BLANK_TILE);
            assert(b >= 0);
            lemma_blank_pos(n as int, board.tiles@, b as int);
        }
        board.blank_index = b;
        if solved_board.is_some() {
            board.cost = board.get_cost();
        }
        board
    }

    /// The cell of the first blank among the first `n2` cells, or -1 where
    /// there is none.
    pub fn get_blank_index(&self) -> (r: i32)
        requires
            0 <= self.n2 <= self.tiles@.len(),
        ensures
            -1 <= r < self.n2,
            r >= 0 ==> self.tiles@[r as int].symbol == BLANK_TILE,
            forall|i: int|
                0 <= i < self.n2 && (r < 0 || i < r) ==> (#[trigger] self.tiles@[i]).symbol
                    != BLANK_TILE,
    {
        let mut i: i32 = 0;
        while i < self.n2
            invariant
                0 <= i <= self.n2,
                self.n2 <= self.tiles@.len(),
                forall|k: int| 0 <= k < i ==> (#[trigger] self.tiles@[k]).symbol != BLANK_TILE,
            decreases self.n2 - i,
        {
            if self.tiles[i as usize].is_blank() {
                return i;
            }
            i = i + 1;
        }
        -1
    }

    /// The tile at `row`, `col`, of `board` where one is given, else of this
    /// board.
    pub fn index(&self, row: i32, col: i32, board: Option<&Board>) -> (r: Tile)
        requires
            self.wf(),
            0 <= row < self.n,
            0 <= col < self.n,
            board is Some ==> board->0.tiles@.len() == self.n * self.n,
        ensures
            board is None ==> r == self.tiles@[row * self.n + col],
            board is Some ==> r == board->0.tiles@[row * self.n + col],
    {
        proof {
            lemma_cell(self.n as int, row as int, col as int);
        }
        let i = (row * self.n + col) as usize;
        match board {
            Some(b) => b.tiles[i],
            None => self.tiles[i],
        }
    }

    /// Whether the blank may move in direction `d`: not straight back along
    /// the last move, and not off the grid.
    pub fn is_valid_move(&self, d: char) -> (r: bool)
        requires
            self.wf(),
            is_direction(d),
        ensures
            r == move_allowed(self.n as int, self.blank_index as int, self.last_direction, d),
    {
        proof {
            lemma_side(self.n as int);
        }
        let back = opposite_direction(d);
        if back == Some(self.last_direction) {
            return false;
        }
        if d == UP && self.blank_index - self.n < 0 {
            return false;
        }
        if d == DOWN && self.blank_index + self.n >= self.n2 {
            return false;
        }
        if d == LEFT && self.blank_index % self.n == 0 {
            return false;
        }
        !(d == RIGHT && (self.blank_index + 1) % self.n == 0)
    }

    /// The directions the blank may move in, in the order up, down, left,
    /// right.
    pub fn get_moves(&self) -> (r: Vec<char>)
        requires
            self.wf(),
        ensures
            r@ == allowed_moves(self.n as int, self.blank_index as int, self.last_direction),
    {
        let mut moves: Vec<char> = Vec::new();
        if self.is_valid_move(UP) {
            moves.push(UP);
        }
        if self.is_valid_move(DOWN) {
            moves.push(DOWN);
        }
        if self.is_valid_move(LEFT) {
            moves.push(LEFT);
        }
        if self.is_valid_move(RIGHT) {
            moves.push(RIGHT);
        }
        moves
    }

    /// The cell next to `position` in direction `d`.
    pub fn translate_index(&self, position: i32, d: char) -> (r: i32)
        requires
            self.wf(),
            -self.n2 <= position <= 2 * self.n2,
        ensures
            r == translate(self.n as int, position as int, d),
    {
        proof {
            lemma_side(self.n as int);
        }
        if d == UP {
            return position - self.n;
        }
        if d == DOWN {
            return position + self.n;
        }
        if d == LEFT {
            return position - 1;
        }
        position + 1
    }

    /// Move the blank one cell in direction `d`: it changes places with the
    /// tile there.
    pub fn move_blank_tile(&mut self, d: char)
        requires
            old(self).wf(),
            is_direction(d),
            in_bounds(old(self).n as int, old(self).blank_index as int, d),
        ensures
            final(self).wf(),
            final(self).tiles@ == step(old(self).n as int, old(self).tiles@, d),
            final(self).blank_index == translate(
                old(self).n as int,
                old(self).blank_index as int,
                d,
            ),
            final(self).last_direction == d,
            final(self).n == old(self).n,
            final(self).n2 == old(self).n2,
            final(self).solved_board == old(self).solved_board,
            final(self).depth == old(self).depth,
            final(self).cost == old(self).cost,
            final(self).path == old(self).path,
    {
        let ghost n = self.n as int;
        proof {
            lemma_translate_in_grid(n, self.blank_index as int, d);
            lemma_blank_pos(n, self.tiles@, self.blank_index as int);
            lemma_swap_valid(n, self.tiles@, self.blank_index as int, translate(n, self.blank_index as int, d));
        }
        let swap_i = self.translate_index(self.blank_index, d);
        let b = self.blank_index as usize;
        let moved = self.tiles[swap_i as usize];
        let blank = self.tiles[b];
        self.tiles.set(b, moved);
        self.tiles.set(swap_i as usize, blank);
        self.last_direction = d;
        self.blank_index = swap_i;
        proof {
            assert(self.tiles@ =~= step(n, old(self).tiles@, d));
        }
    }

    /// A map from the symbol of each tile of `board` to its column.
    pub fn _create_tile_row_indices_map(&self, board: &Board) -> (r: HashMap<i32, i32>)
        requires
            self.wf(),
            board.tiles@.len() == self.n * self.n,
            valid_tiles(self.n as int, board.tiles@),
        ensures
            position_map(r@, self.n as int, board.tiles@, false),
    {
        broadcast use vstd::std_specs::hash::group_hash_axioms;

        let ghost n = self.n as int;
        let ghost t = board.tiles@;
        let mut row_map: HashMap<i32, i32> = HashMap::new();
        let mut row: i32 = 0;
        while row < self.n
            invariant
                self.wf(),
                n == self.n,
                t == board.tiles@,
                t.len() == n * n,
                valid_tiles(n, t),
                0 <= row <= n,
                partial_position_map(row_map@, n, t, false, |k: int| k < row * n),
            decreases n - row,
        {
            let mut col: i32 = 0;
            while col < self.n
                invariant
                    self.wf(),
                    n == self.n,
                    t == board.tiles@,
                    t.len() == n * n,
                    valid_tiles(n, t),
                    0 <= row < n,
                    0 <= col <= n,
                    partial_position_map(row_map@, n, t, false, |k: int| k < row * n + col),
                decreases n - col,
            {
                let tile = self.index(row, col, Some(board));
                let ghost c = row * n + col;
                proof {
                    lemma_cell(n, row as int, col as int);
                }
                row_map.insert(tile.symbol, col);
                proof {
                    let seen = |k: int| k < row * n + col + 1;
                    assert forall|s: i32| #[trigger]
                        row_map@.contains_key(s) <==> exists|k: int|
                            0 <= k < t.len() && seen(k) && (#[trigger] t[k]).symbol == s by {
                        if row_map@.contains_key(s) && s != tile.symbol {
                            let k = choose|k: int|
                                0 <= k < t.len() && k < c && (#[trigger] t[k]).symbol == s;
                            assert(seen(k));
                        }
                        if s == tile.symbol {
                            assert(seen(c) && t[c].symbol == s);
                        }
                    }
                    assert forall|k: int| 0 <= k < t.len() && seen(k) implies row_map@[(
                    #[trigger] t[k]).symbol] as int == k % n by {
                        if k != c {
                            assert(t[k] != t[c]);
                        }
                    }
                }
                col = col + 1;
            }
            proof {
                assert((row + 1) * n == row * n + n) by (nonlinear_arith);
            }
            row = row + 1;
        }
        proof {
            assert(row == n);
            assert(partial_position_map(row_map@, n, t, false, |k: int| true)) by {
                assert forall|s: i32| #[trigger]
                    row_map@.contains_key(s) <==> exists|k: int|
                        0 <= k < t.len() && (|k: int| true)(k) && (#[trigger] t[k]).symbol == s by {
                    if row_map@.contains_key(s) {
                        let k = choose|k: int|
                            0 <= k < t.len() && k < row * n && (#[trigger] t[k]).symbol == s;
                    }
                }
            }
        }
        row_map
    }

    /// A map from the symbol of each tile of `board` to its row.
    pub fn _create_tile_column_indices_map(&self, board: &Board) -> (r: HashMap<i32, i32>)
        requires
            self.wf(),
            board.tiles@.len() == self.n * self.n,
            valid_tiles(self.n as int, board.tiles@),
        ensures
            position_map(r@, self.n as int, board.tiles@, true),
    {
        broadcast use vstd::std_specs::hash::group_hash_axioms;

        let ghost n = self.n as int;
        let ghost t = board.tiles@;
        let mut col_map: HashMap<i32, i32> = HashMap::new();
        let mut col: i32 = 0;
        while col < self.n
            invariant
                self.wf(),
                n == self.n,
                t == board.tiles@,
                t.len() == n * n,
                valid_tiles(n, t),
                0 <= col <= n,
                partial_position_map(col_map@, n, t, true, |k: int| k % n < col),
            decreases n - col,
        {
            let mut row: i32 = 0;
            while row < self.n
                invariant
                    self.wf(),
                    n == self.n,
                    t == board.tiles@,
                    t.len() == n * n,
                    valid_tiles(n, t),
                    0 <= col < n,
                    0 <= row <= n,
                    partial_position_map(
                        col_map@,
                        n,
                        t,
                        true,
                        |k: int| k % n < col || (k % n == col && k / n < row),
                    ),
                decreases n - row,
            {
                let tile = self.index(row, col, Some(board));
                let ghost c = row * n + col;
                proof {
                    lemma_cell(n, row as int, col as int);
                }
                col_map.insert(tile.symbol, row);
                proof {
                    let seen0 = |k: int| k % n < col || (k % n == col && k / n < row);
                    let seen = |k: int| k % n < col || (k % n == col && k / n < row + 1);
                    assert forall|k: int| 0 <= k < t.len() && #[trigger] seen(k) && k != c implies seen0(k) by {
                        lemma_row_col(n, k);
                    }
                    assert forall|s: i32| #[trigger]
                        col_map@.contains_key(s) <==> exists|k: int|
                            0 <= k < t.len() && seen(k) && (#[trigger] t[k]).symbol == s by {
                        if col_map@.contains_key(s) && s != tile.symbol {
                            let k = choose|k: int|
                                0 <= k < t.len() && seen0(k) && (#[trigger] t[k]).symbol == s;
                            assert(seen(k));
                        }
                        if s == tile.symbol {
                            assert(seen(c) && t[c].symbol == s);
                        }
                        if exists|k: int| 0 <= k < t.len() && seen(k) && (#[trigger] t[k]).symbol == s {
                            let k = choose|k: int|
                                0 <= k < t.len() && seen(k) && (#[trigger] t[k]).symbol == s;
                            if k != c {
                                assert(seen0(k));
                            }
                        }
                    }
                    assert forall|k: int| 0 <= k < t.len() && seen(k) implies col_map@[(
                    #[trigger] t[k]).symbol] as int == k / n by {
                        if k != c {
                            assert(t[k] != t[c]);
                            assert(seen0(k));
                        }
                    }
                }
                row = row + 1;
            }
            proof {
                let seen0 = |k: int| k % n < col || (k % n == col && k / n < row);
                let seen = |k: int| k % n < col + 1;
                assert forall|k: int| 0 <= k < t.len() implies #[trigger] seen(k) == seen0(k) by {
                    lemma_row_col(n, k);
                }
                assert forall|s: i32| #[trigger]
                    col_map@.contains_key(s) <==> exists|k: int|
                        0 <= k < t.len() && seen(k) && (#[trigger] t[k]).symbol == s by {
                    if col_map@.contains_key(s) {
                        let k = choose|k: int|
                            0 <= k < t.len() && seen0(k) && (#[trigger] t[k]).symbol == s;
                        assert(seen(k));
                    }
                    if exists|k: int| 0 <= k < t.len() && seen(k) && (#[trigger] t[k]).symbol == s {
                        let k = choose|k: int|
                            0 <= k < t.len() && seen(k) && (#[trigger] t[k]).symbol == s;
                        assert(seen0(k));
                    }
                }
            }
            col = col + 1;
        }
        proof {
            let seen0 = |k: int| k % n < col;
            assert forall|k: int| 0 <= k < t.len() implies #[trigger] seen0(k) by {
                lemma_row_col(n, k);
            }
            assert(partial_position_map(col_map@, n, t, true, |k: int| true)) by {
                assert forall|s: i32| #[trigger]
                    col_map@.contains_key(s) <==> exists|k: int|
                        0 <= k < t.len() && (|k: int| true)(k) && (#[trigger] t[k]).symbol == s by {
                    if col_map@.contains_key(s) {
                        let k = choose|k: int|
                            0 <= k < t.len() && seen0(k) && (#[trigger] t[k]).symbol == s;
                    }
                    if exists|k: int| 0 <= k < t.len() && (#[trigger] t[k]).symbol == s {
                        let k = choose|k: int| 0 <= k < t.len() && (#[trigger] t[k]).symbol == s;
                        assert(seen0(k));
                    }
                }
            }
        }
        col_map
    }

    /// The Manhattan distance of the board to the solved board.
    pub fn _manhattan_cost(&self) -> (r: i32)
        requires
            self.wf(),
            self.solved_board is Some,
        ensures
            r == manhattan(self.n as int, self.tiles@),
    {
        let ghost n = self.n as int;
        let ghost t = self.tiles@;
        let solved = self.solved_board.unwrap();
        proof {
            lemma_side(n);
            assert((n * n) * (2 * (n - 1)) <= 1_000_000 * 1998) by (nonlinear_arith)
                requires
                    1 <= n <= MAX_SIDE,
            ;
        }
        let mut cost: i32 = 0;
        let mut i: i32 = 0;
        while i < self.n2
            invariant
                self.wf(),
                n == self.n,
                t == self.tiles@,
                solved.tiles@ == solved_tiles(n),
                0 <= i <= self.n2,
                cost == manhattan_upto(n, t, i as int),
                (n * n) * (2 * (n - 1)) <= 1_000_000 * 1998,
            decreases self.n2 - i,
        {
            proof {
                lemma_manhattan_upto_bound(n, t, i as int + 1);
                assert((i + 1) * (2 * (n - 1)) <= (n * n) * (2 * (n - 1))) by (nonlinear_arith)
                    requires
                        i + 1 <= n * n,
                        1 <= n,
                ;
            }
            if i != self.blank_index {
                let tile = self.tiles[i as usize];
                let ghost g = goal_index(n, tile.symbol);
                proof {
                    lemma_blank_pos(n, t, self.blank_index as int);
                    assert(tile != t[self.blank_index as int]);
                    lemma_goal_index(n, tile.symbol);
                }
                let mut solved_i: i32 = 0;
                while solved_i < self.n2 && solved.tiles[solved_i as usize] != tile
                    invariant
                        self.wf(),
                        n == self.n,
                        solved.tiles@ == solved_tiles(n),
                        tile.symbol != BLANK_TILE,
                        1 <= tile.symbol < n * n,
                        g == tile.symbol - 1,
                        0 <= solved_i <= g,
                    decreases g - solved_i,
                {
                    solved_i = solved_i + 1;
                }
                proof {
                    lemma_row_col(n, i as int);
                    lemma_row_col(n, g);
                }
                cost = cost + distance(i % self.n, solved_i % self.n);
                cost = cost + distance(i / self.n, solved_i / self.n);
            }
            i = i + 1;
        }
        cost
    }

    /// The linear conflicts of row `row`, charging the tiles found in
    /// `conflicting_tiles`; the count of this row alone is returned.
    fn _find_row_conflicts(
        &self,
        row: i32,
        conflicting_tiles: &mut HashSet<i32>,
        solved_row_map: &HashMap<i32, i32>,
        solved_col_map: &HashMap<i32, i32>,
        unsolved_row_map: &HashMap<i32, i32>,
        unsolved_col_map: &HashMap<i32, i32>,
    ) -> (r: i32)
        requires
            self.wf(),
            0 <= row < self.n,
            conflict_maps(
                self.n as int,
                self.tiles@,
                solved_row_map@,
                solved_col_map@,
                unsolved_row_map@,
                unsolved_col_map@,
            ),
            charged_ok(self.n as int, old(conflicting_tiles)@),
        ensures
            (final(conflicting_tiles)@, r as int) == scan_line(
                self.n as int,
                self.tiles@,
                false,
                row as int,
                0,
                (old(conflicting_tiles)@, 0),
            ),
            charged_ok(self.n as int, final(conflicting_tiles)@),
    {
        broadcast use vstd::std_specs::hash::group_hash_axioms;

        let ghost n = self.n as int;
        let ghost t = self.tiles@;
        let ghost c0 = conflicting_tiles@;
        let ghost goal = scan_line(n, t, false, row as int, 0, (c0, 0));
        proof {
            lemma_scan_inv_refl(n, (c0, 0));
        }
        let mut total: i32 = 0;
        let mut i: i32 = 0;
        while i < self.n - 1
            invariant
                self.wf(),
                n == self.n,
                t == self.tiles@,
                0 <= row < n,
                0 <= i <= n - 1,
                conflict_maps(n, t, solved_row_map@, solved_col_map@, unsolved_row_map@, unsolved_col_map@),
                goal == scan_line(n, t, false, row as int, i as int, (conflicting_tiles@, total as int)),
                scan_inv(n, (conflicting_tiles@, total as int), (c0, 0)),
            decreases n - 1 - i,
        {
            let tile_i = self.index(row, i, None);
            if tile_i.is_blank() {
                proof {
                    lemma_scan_pairs_blank(n, t, false, row as int, i as int, i + 1, (conflicting_tiles@, total as int));
                }
                i = i + 1;
                continue;
            }
            let mut j: i32 = i + 1;
            while j < self.n
                invariant
                    self.wf(),
                    n == self.n,
                    t == self.tiles@,
                    0 <= row < n,
                    0 <= i < j <= n,
                    i < n - 1,
                    tile_i == t[cell(n, false, row as int, i as int)],
                    tile_i.symbol != BLANK_TILE,
                    conflict_maps(n, t, solved_row_map@, solved_col_map@, unsolved_row_map@, unsolved_col_map@),
                    goal == scan_line(
                        n,
                        t,
                        false,
                        row as int,
                        i + 1,
                        scan_pairs(n, t, false, row as int, i as int, j as int, (conflicting_tiles@, total as int)),
                    ),
                    scan_inv(n, (conflicting_tiles@, total as int), (c0, 0)),
                decreases n - j,
            {
                let tile_j = self.index(row, j, None);
                let ghost st = (conflicting_tiles@, total as int);
                let ghost next = pair_step(n, t, false, row as int, i as int, j as int, st);
                proof {
                    lemma_cell(n, row as int, i as int);
                    lemma_cell(n, row as int, j as int);
                    lemma_goal_index(n, tile_i.symbol);
                    lemma_goal_index(n, tile_j.symbol);
                    let gi = goal_index(n, tile_i.symbol);
                    let gj = goal_index(n, tile_j.symbol);
                    assert(solved_tiles(n)[gi].symbol == tile_i.symbol);
                    assert(solved_tiles(n)[gj].symbol == tile_j.symbol);
                    lemma_side(n);
                    lemma_pair_step_inv(n, t, false, row as int, i as int, j as int, st, (c0, 0));
                    lemma_charged_bound(n, next.0);
                    lemma_charged_bound(n, c0);
                }
                let goal_row_i = lookup(solved_col_map, tile_i.symbol);
                let row_i = lookup(unsolved_col_map, tile_i.symbol);
                let goal_row_j = lookup(solved_col_map, tile_j.symbol);
                let row_j = lookup(unsolved_col_map, tile_j.symbol);
                proof {
                    assert(goal_row_i == goal_line(n, false, tile_i.symbol));
                    assert(goal_row_j == goal_line(n, false, tile_j.symbol));
                    assert(row_i == row);
                    assert(row_j == row);
                    assert(unsolved_row_map@[tile_i.symbol] == i);
                    assert(unsolved_row_map@[tile_j.symbol] == j);
                    assert(solved_row_map@[tile_i.symbol] == goal_along(n, false, tile_i.symbol));
                    assert(solved_row_map@[tile_j.symbol] == goal_along(n, false, tile_j.symbol));
                }
                if goal_row_i != row_i || goal_row_j != row_j {
                    j = j + 1;
                    continue;
                }
                if conflicting_tiles.contains(&tile_i.symbol) || conflicting_tiles.contains(&tile_j.symbol) {
                    j = j + 1;
                    continue;
                }
                if tile_j.is_blank() {
                    j = j + 1;
                    continue;
                }
                if Board::_in_conflict(
                    lookup(unsolved_row_map, tile_i.symbol),
                    lookup(unsolved_row_map, tile_j.symbol),
                    lookup(solved_row_map, tile_i.symbol),
                    lookup(solved_row_map, tile_j.symbol),
                ) {
                    proof {
                        assert(next.1 == total + 2);
                    }
                    total = total + 2;
                    conflicting_tiles.insert(tile_i.symbol);
                    conflicting_tiles.insert(tile_j.symbol);
                }
                proof {
                    assert((conflicting_tiles@, total as int) == next);
                }
                j = j + 1;
            }
            i = i + 1;
        }
        total
    }

    /// The linear conflicts of column `col`, charging the tiles found in
    /// `conflicting_tiles`; the count of this column alone is returned.
    fn _find_column_conflicts(
        &self,
        col: i32,
        conflicting_tiles: &mut HashSet<i32>,
        solved_row_map: &HashMap<i32, i32>,
        solved_col_map: &HashMap<i32, i32>,
        unsolved_row_map: &HashMap<i32, i32>,
        unsolved_col_map: &HashMap<i32, i32>,
    ) -> (r: i32)
        requires
            self.wf(),
            0 <= col < self.n,
            conflict_maps(
                self.n as int,
                self.tiles@,
                solved_row_map@,
                solved_col_map@,
                unsolved_row_map@,
                unsolved_col_map@,
            ),
            charged_ok(self.n as int, old(conflicting_tiles)@),
        ensures
            (final(conflicting_tiles)@, r as int) == scan_line(
                self.n as int,
                self.tiles@,
                true,
                col as int,
                0,
                (old(conflicting_tiles)@, 0),
            ),
            charged_ok(self.n as int, final(conflicting_tiles)@),
    {
        broadcast use vstd::std_specs::hash::group_hash_axioms;

        let ghost n = self.n as int;
        let ghost t = self.tiles@;
        let ghost c0 = conflicting_tiles@;
        let ghost goal = scan_line(n, t, true, col as int, 0, (c0, 0));
        proof {
            lemma_scan_inv_refl(n, (c0, 0));
        }
        let mut total: i32 = 0;
        let mut i: i32 = 0;
        while i < self.n - 1
            invariant
                self.wf(),
                n == self.n,
                t == self.tiles@,
                0 <= col < n,
                0 <= i <= n - 1,
                conflict_maps(n, t, solved_row_map@, solved_col_map@, unsolved_row_map@, unsolved_col_map@),
                goal == scan_line(n, t, true, col as int, i as int, (conflicting_tiles@, total as int)),
                scan_inv(n, (conflicting_tiles@, total as int), (c0, 0)),
            decreases n - 1 - i,
        {
            let tile_i = self.index(i, col, None);
            if tile_i.is_blank() {
                proof {
                    lemma_scan_pairs_blank(n, t, true, col as int, i as int, i + 1, (conflicting_tiles@, total as int));
                }
                i = i + 1;
                continue;
            }
            let mut j: i32 = i + 1;
            while j < self.n
                invariant
                    self.wf(),
                    n == self.n,
                    t == self.tiles@,
                    0 <= col < n,
                    0 <= i < j <= n,
                    i < n - 1,
                    tile_i == t[cell(n, true, col as int, i as int)],
                    tile_i.symbol != BLANK_TILE,
                    conflict_maps(n, t, solved_row_map@, solved_col_map@, unsolved_row_map@, unsolved_col_map@),
                    goal == scan_line(
                        n,
                        t,
                        true,
                        col as int,
                        i + 1,
                        scan_pairs(n, t, true, col as int, i as int, j as int, (conflicting_tiles@, total as int)),
                    ),
                    scan_inv(n, (conflicting_tiles@, total as int), (c0, 0)),
                decreases n - j,
            {
                let tile_j = self.index(j, col, None);
                let ghost st = (conflicting_tiles@, total as int);
                let ghost next = pair_step(n, t, true, col as int, i as int, j as int, st);
                proof {
                    lemma_cell(n, i as int, col as int);
                    lemma_cell(n, j as int, col as int);
                    lemma_goal_index(n, tile_i.symbol);
                    lemma_goal_index(n, tile_j.symbol);
                    let gi = goal_index(n, tile_i.symbol);
                    let gj = goal_index(n, tile_j.symbol);
                    assert(solved_tiles(n)[gi].symbol == tile_i.symbol);
                    assert(solved_tiles(n)[gj].symbol == tile_j.symbol);
                    lemma_side(n);
                    lemma_pair_step_inv(n, t, true, col as int, i as int, j as int, st, (c0, 0));
                    lemma_charged_bound(n, next.0);
                    lemma_charged_bound(n, c0);
                }
                let goal_col_i = lookup(solved_row_map, tile_i.symbol);
                let col_i = lookup(unsolved_row_map, tile_i.symbol);
                let goal_col_j = lookup(solved_row_map, tile_j.symbol);
                let col_j = lookup(unsolved_row_map, tile_j.symbol);
                proof {
                    assert(goal_col_i == goal_line(n, true, tile_i.symbol));
                    assert(goal_col_j == goal_line(n, true, tile_j.symbol));
                    assert(col_i == col);
                    assert(col_j == col);
                    assert(unsolved_col_map@[tile_i.symbol] == i);
                    assert(unsolved_col_map@[tile_j.symbol] == j);
                    assert(solved_col_map@[tile_i.symbol] == goal_along(n, true, tile_i.symbol));
                    assert(solved_col_map@[tile_j.symbol] == goal_along(n, true, tile_j.symbol));
                }
                if goal_col_i != col_i || goal_col_j != col_j {
                    j = j + 1;
                    continue;
                }
                if conflicting_tiles.contains(&tile_i.symbol) || conflicting_tiles.contains(&tile_j.symbol) {
                    j = j + 1;
                    continue;
                }
                if tile_j.is_blank() {
                    j = j + 1;
                    continue;
                }
                if Board::_in_conflict(
                    lookup(unsolved_col_map, tile_i.symbol),
                    lookup(unsolved_col_map, tile_j.symbol),
                    lookup(solved_col_map, tile_i.symbol),
                    lookup(solved_col_map, tile_j.symbol),
                ) {
                    proof {
                        assert(next.1 == total + 2);
                    }
                    total = total + 2;
                    conflicting_tiles.insert(tile_i.symbol);
                    conflicting_tiles.insert(tile_j.symbol);
                }
                proof {
                    assert((conflicting_tiles@, total as int) == next);
                }
                j = j + 1;
            }
            i = i + 1;
        }
        total
    }

    /// The linear-conflict correction of the board: over all rows, then all
    /// columns, 2 for each pair of tiles of a line that both belong to that
    /// line on the solved board and stand there in the opposite order, a tile
    /// being charged at most once.
    pub fn _linear_conflicts(&self) -> (r: i32)
        requires
            self.wf(),
            self.solved_board is Some,
        ensures
            r == conflicts(self.n as int, self.tiles@),
            0 <= r < self.n * self.n,
            r % 2 == 0,
    {
        broadcast use vstd::std_specs::hash::group_hash_axioms;

        let ghost n = self.n as int;
        let ghost t = self.tiles@;
        let solved = self.solved_board.unwrap();
        proof {
            lemma_side(n);
            lemma_solved_valid(n);
        }
        let solved_row_map = self._create_tile_row_indices_map(solved);
        let solved_col_map = self._create_tile_column_indices_map(solved);
        let unsolved_row_map = self._create_tile_row_indices_map(self);
        let unsolved_col_map = self._create_tile_column_indices_map(self);
        let mut conflicting_tiles: HashSet<i32> = HashSet::new();
        let mut total: i32 = 0;
        let ghost start: (Set<i32>, int) = (Set::empty(), 0);
        let ghost rows_done = scan_lines(n, t, false, 0, start);
        proof {
            lemma_scan_inv_refl(n, start);
        }
        let mut i: i32 = 0;
        while i < self.n
            invariant
                self.wf(),
                n == self.n,
                t == self.tiles@,
                0 <= i <= n,
                conflict_maps(n, t, solved_row_map@, solved_col_map@, unsolved_row_map@, unsolved_col_map@),
                rows_done == scan_lines(n, t, false, i as int, (conflicting_tiles@, total as int)),
                scan_inv(n, (conflicting_tiles@, total as int), start),
                start == (Set::<i32>::empty(), 0int),
            decreases n - i,
        {
            let ghost before = (conflicting_tiles@, total as int);
            let found = self._find_row_conflicts(
                i,
                &mut conflicting_tiles,
                &solved_row_map,
                &solved_col_map,
                &unsolved_row_map,
                &unsolved_col_map,
            );
            proof {
                lemma_scan_line_shift(n, t, false, i as int, 0, before.0, before.1);
                lemma_scan_line_inv(n, t, false, i as int, 0, before, start);
                lemma_charged_bound(n, conflicting_tiles@);
                assert(scan_line(n, t, false, i as int, 0, before) == (conflicting_tiles@, total + found));
            }
            total = total + found;
            i = i + 1;
        }
        let mut i: i32 = 0;
        while i < self.n
            invariant
                self.wf(),
                n == self.n,
                t == self.tiles@,
                0 <= i <= n,
                conflict_maps(n, t, solved_row_map@, solved_col_map@, unsolved_row_map@, unsolved_col_map@),
                scan_lines(n, t, true, 0, rows_done) == scan_lines(n, t, true, i as int, (conflicting_tiles@, total as int)),
                scan_inv(n, (conflicting_tiles@, total as int), start),
                start == (Set::<i32>::empty(), 0int),
            decreases n - i,
        {
            let ghost before = (conflicting_tiles@, total as int);
            let found = self._find_column_conflicts(
                i,
                &mut conflicting_tiles,
                &solved_row_map,
                &solved_col_map,
                &unsolved_row_map,
                &unsolved_col_map,
            );
            proof {
                lemma_scan_line_shift(n, t, true, i as int, 0, before.0, before.1);
                lemma_scan_line_inv(n, t, true, i as int, 0, before, start);
                lemma_charged_bound(n, conflicting_tiles@);
                assert(scan_line(n, t, true, i as int, 0, before) == (conflicting_tiles@, total + found));
            }
            total = total + found;
            i = i + 1;
        }
        proof {
            lemma_charged_bound(n, conflicting_tiles@);
        }
        total
    }

    /// The cost of the board: Manhattan distance plus linear conflicts plus
    /// depth.
    pub fn get_cost(&self) -> (r: i32)
        requires
            self.wf(),
            self.solved_board is Some,
            self.depth + heuristic(self.n as int, self.tiles@) <= i32::MAX,
        ensures
            r == heuristic(self.n as int, self.tiles@) + self.depth,
    {
        proof {
            lemma_side(self.n as int);
            lemma_manhattan_bound(self.n as int, self.tiles@);
            assert((self.n * self.n) * (2 * (self.n - 1)) <= 1_000_000 * 1998) by (nonlinear_arith)
                requires
                    1 <= self.n <= MAX_SIDE,
            ;
        }
        let m = self._manhattan_cost();
        let c = self._linear_conflicts();
        m + c + self.depth
    }

    /// Whether the board is the solved board: its Manhattan distance is zero.
    pub fn is_solved(&self) -> (r: bool)
        requires
            self.wf(),
            self.solved_board is Some,
        ensures
            r == (self.tiles@ == solved_tiles(self.n as int)),
    {
        proof {
            lemma_side(self.n as int);
            lemma_manhattan_zero(self.n as int, self.tiles@);
        }
        self._manhattan_cost() == 0
    }

    /// The board as text: each row on a line, the labels of its tiles
    /// separated by `, `.
    pub fn to_string(&self) -> (r: String)
        requires
            self.wf(),
        ensures
            r@ == board_text(self.n as int, self.tiles@),
    {
        let ghost n = self.n as int;
        let ghost t = self.tiles@;
        let mut result = String::new();
        let mut row: i32 = 0;
        while row < self.n
            invariant
                self.wf(),
                n == self.n,
                t == self.tiles@,
                0 <= row <= n,
                result@ == board_text_upto(n, t, row * n),
            decreases n - row,
        {
            let mut col: i32 = 0;
            while col < self.n - 1
                invariant
                    self.wf(),
                    n == self.n,
                    t == self.tiles@,
                    0 <= row < n,
                    0 <= col <= n - 1,
                    result@ == board_text_upto(n, t, row * n + col),
                decreases n - 1 - col,
            {
                proof {
                    lemma_cell(n, row as int, col as int);
                }
                let tile = self.index(row, col, None);
                let label = tile.to_string();
                let ghost before = result@;
                result.append(label.as_str());
                result.append(", ");
                proof {
                    reveal_strlit(", ");
                    let k = row * n + col;
                    assert(tile == t[k]);
                    assert(label@ == tile_label(t[k]));
                    assert(k % n != n - 1);
                    assert(result@ == before + tile_label(t[k]) + seq![',', ' ']);
                    assert(result@ =~= board_text_upto(n, t, row * n + col + 1));
                }
                col = col + 1;
            }
            proof {
                lemma_cell(n, row as int, n - 1);
            }
            let label = self.index(row, self.n - 1, None).to_string();
            result.append(label.as_str());
            result.append("\n");
            proof {
                reveal_strlit("\n");
                assert((row + 1) * n == row * n + (n - 1) + 1) by (nonlinear_arith);
                assert(result@ =~= board_text_upto(n, t, (row + 1) * n));
            }
            row = row + 1;
        }
        result
    }

    /// Forget all boards encountered so far.
    pub fn reset_previous_boards(previous_boards: &mut Vec<Board<'a>>)
        ensures
            final(previous_boards)@.len() == 0,
    {
        previous_boards.clear();
    }

    /// Whether a board with the same tiles has been encountered.
    pub fn previously_encountered(&self, previous_boards: &Vec<Board<'a>>) -> (r: bool)
        ensures
            r == seen_state(previous_boards@, self.tiles@),
    {
        let mut i: usize = 0;
        while i < previous_boards.len()
            invariant
                0 <= i <= previous_boards@.len(),
                forall|k: int| 0 <= k < i ==> (#[trigger] previous_boards@[k]).tiles@ != self.tiles@,
            decreases previous_boards@.len() - i,
        {
            if self.eq(&previous_boards[i]) {
                return true;
            }
            i = i + 1;
        }
        false
    }

    /// Record this board as encountered, unless a board with the same tiles
    /// already is.
    pub fn add_to_previously_encountered(&self, previous_boards: &mut Vec<Board<'a>>)
        ensures
            seen_state(old(previous_boards)@, self.tiles@) ==> final(previous_boards)@ == old(previous_boards)@,
            !seen_state(old(previous_boards)@, self.tiles@) ==> {
                &&& final(previous_boards)@.len() == old(previous_boards)@.len() + 1
                &&& final(previous_boards)@.drop_last() == old(previous_boards)@
                &&& final(previous_boards)@.last().tiles@ == self.tiles@
            },
            forall|t: Seq<Tile>|
                #[trigger] seen_state(final(previous_boards)@, t) <==> seen_state(
                    old(previous_boards)@,
                    t,
                ) || t == self.tiles@,
    {
        if !self.previously_encountered(previous_boards) {
            previous_boards.push(self.clone());
            proof {
                let last = final(previous_boards)@.len() - 1;
                assert(final(previous_boards)@.drop_last() =~= old(previous_boards)@);
                assert forall|t: Seq<Tile>|
                    #[trigger] seen_state(final(previous_boards)@, t) <==> seen_state(
                        old(previous_boards)@,
                        t,
                    ) || t == self.tiles@ by {
                    if seen_state(final(previous_boards)@, t) {
                        let i = choose|i: int|
                            0 <= i < final(previous_boards)@.len() && (#[trigger] final(previous_boards)@[i]).tiles@ == t;
                        if i < last {
                            assert(old(previous_boards)@[i] == final(previous_boards)@[i]);
                        }
                    }
                    if seen_state(old(previous_boards)@, t) {
                        let i = choose|i: int|
                            0 <= i < old(previous_boards)@.len() && (#[trigger] old(previous_boards)@[i]).tiles@ == t;
                        assert(final(previous_boards)@[i] == old(previous_boards)@[i]);
                    }
                    if t == self.tiles@ {
                        assert(final(previous_boards)@[last].tiles@ == t);
                    }
                }
            }
        }
    }

    /// Make `n` moves of the blank, each drawn at random among those allowed;
    /// the board stays solvable.
    pub fn shuffle(&mut self, n: i32)
        requires
            old(self).wf(),
            old(self).n >= 2,
        ensures
            final(self).wf(),
            final(self).n == old(self).n,
            final(self).solved_board == old(self).solved_board,
            final(self).depth == old(self).depth,
            final(self).cost == old(self).cost,
            final(self).path == old(self).path,
            n <= 0 ==> final(self).tiles@ == old(self).tiles@ && final(self).last_direction == old(
                self,
            ).last_direction,
            n >= 0 ==> exists|moves: Seq<char>|
                #![trigger apply_moves(old(self).n as int, old(self).tiles@, moves)]
                moves.len() == n && apply_moves(old(self).n as int, old(self).tiles@, moves) == Some(
                    final(self).tiles@,
                ) && no_backtrack(old(self).last_direction, moves) && (n > 0
                    ==> final(self).last_direction == moves.last()),
    {
        let ghost side = self.n as int;
        let ghost moves: Seq<char> = Seq::empty();
        let mut i: i32 = 0;
        while i < n
            invariant
                self.wf(),
                self.n == side,
                side >= 2,
                self.solved_board == old(self).solved_board,
                self.depth == old(self).depth,
                self.cost == old(self).cost,
                self.path == old(self).path,
                0 <= i,
                n >= 0 ==> i <= n,
                n <= 0 ==> i == 0,
                moves.len() == i,
                apply_moves(side, old(self).tiles@, moves) == Some(self.tiles@),
                no_backtrack(old(self).last_direction, moves),
                i > 0 ==> self.last_direction == moves.last(),
                i == 0 ==> self.last_direction == old(self).last_direction && self.tiles@ == old(
                    self,
                ).tiles@,
            decreases n - i,
        {
            let choices = self.get_moves();
            proof {
                lemma_some_move_allowed(side, self.blank_index as int, self.last_direction);
            }
            let board_move = choose_move(&choices);
            proof {
                lemma_blank_pos(side, self.tiles@, self.blank_index as int);
            }
            let ghost last = self.last_direction;
            self.move_blank_tile(board_move);
            proof {
                let next = moves.push(board_move);
                assert(next.drop_last() == moves);
                assert(last != opposite(board_move));
                assert forall|k: int| 0 < k < next.len() implies next[k - 1] != opposite(
                    #[trigger] next[k],
                ) by {
                    if k < moves.len() {
                        assert(next[k - 1] == moves[k - 1] && next[k] == moves[k]);
                    } else {
                        assert(next[k - 1] == moves.last());
                    }
                }
                moves = next;
            }
            i = i + 1;
        }
    }
}

} // verus!

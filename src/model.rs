//! The mathematical model of the puzzle: grid geometry, moves of the blank,
//! and the two parts of the heuristic (Manhattan distance and linear
//! conflicts), over sequences of tiles.
use vstd::arithmetic::div_mod::lemma_fundamental_div_mod_converse;
use vstd::prelude::*;

use crate::tile::{solved_tiles, Tile, BLANK_TILE};

verus! {

/// The blank moves one row up.
pub const UP: char = 'U';

/// The blank moves one row down.
pub const DOWN: char = 'D';

/// The blank moves one column left.
pub const LEFT: char = 'L';

/// The blank moves one column right.
pub const RIGHT: char = 'R';

/// The direction of the move that reached a root board: none.
pub const NO_DIRECTION: char = '\0';

/// Largest side length handled: up to it every heuristic value, and a cost
/// that adds a modest depth to it, fits in an `i32`.
pub const MAX_SIDE: i32 = 1000;

pub open spec fn is_direction(d: char) -> bool {
    d == UP || d == DOWN || d == LEFT || d == RIGHT
}

/// The direction that undoes a move in direction `d`.
pub open spec fn opposite(d: char) -> char {
    if d == UP {
        DOWN
    } else if d == DOWN {
        UP
    } else if d == LEFT {
        RIGHT
    } else {
        LEFT
    }
}

/// Whether moving the blank from `blank` in direction `d` stays on the grid.
pub open spec fn in_bounds(n: int, blank: int, d: char) -> bool {
    &&& d == UP ==> blank - n >= 0
    &&& d == DOWN ==> blank + n < n * n
    &&& d == LEFT ==> blank % n != 0
    &&& d == RIGHT ==> (blank + 1) % n != 0
}

/// Whether a search node whose blank is at `blank` and that was reached by a
/// move in direction `last` may move in direction `d`: on the grid, and not
/// straight back.
pub open spec fn move_allowed(n: int, blank: int, last: char, d: char) -> bool {
    last != opposite(d) && in_bounds(n, blank, d)
}

/// The cell next to `pos` in direction `d`.
pub open spec fn translate(n: int, pos: int, d: char) -> int {
    if d == UP {
        pos - n
    } else if d == DOWN {
        pos + n
    } else if d == LEFT {
        pos - 1
    } else {
        pos + 1
    }
}

/// The allowed directions, in the fixed order up, down, left, right.
pub open spec fn allowed_moves(n: int, blank: int, last: char) -> Seq<char> {
    let s0 = Seq::<char>::empty();
    let s1 = if move_allowed(n, blank, last, UP) { s0.push(UP) } else { s0 };
    let s2 = if move_allowed(n, blank, last, DOWN) { s1.push(DOWN) } else { s1 };
    let s3 = if move_allowed(n, blank, last, LEFT) { s2.push(LEFT) } else { s2 };
    if move_allowed(n, blank, last, RIGHT) { s3.push(RIGHT) } else { s3 }
}

/// A permutation of the solved tiles of side `n`: `n * n` distinct tiles,
/// each the blank or numbered from 1 to `n * n - 1`, one of them the blank.
pub open spec fn valid_tiles(n: int, t: Seq<Tile>) -> bool {
    &&& t.len() == n * n
    &&& forall|i: int|
        0 <= i < t.len() ==> (#[trigger] t[i]).symbol == BLANK_TILE || (1 <= t[i].symbol
            < n * n)
    &&& forall|i: int, j: int|
        0 <= i < t.len() && 0 <= j < t.len() && i != j ==> #[trigger] t[i] != #[trigger] t[j]
    &&& exists|i: int| 0 <= i < t.len() && (#[trigger] t[i]).symbol == BLANK_TILE
}

/// The cell of the blank.
pub open spec fn blank_pos(t: Seq<Tile>) -> int {
    choose|i: int| 0 <= i < t.len() && (#[trigger] t[i]).symbol == BLANK_TILE
}

/// Exchange the tiles in cells `a` and `b`.
pub open spec fn swap(t: Seq<Tile>, a: int, b: int) -> Seq<Tile> {
    t.update(a, t[b]).update(b, t[a])
}

/// The tiles after the blank moves once in direction `d`.
pub open spec fn step(n: int, t: Seq<Tile>, d: char) -> Seq<Tile> {
    swap(t, blank_pos(t), translate(n, blank_pos(t), d))
}

/// The tiles after the blank makes the moves of `moves` in order, or `None`
/// where one of them is not a direction or would leave the grid.
pub open spec fn apply_moves(n: int, t: Seq<Tile>, moves: Seq<char>) -> Option<Seq<Tile>>
    decreases moves.len(),
{
    if moves.len() == 0 {
        Some(t)
    } else {
        match apply_moves(n, t, moves.drop_last()) {
            Some(u) => if is_direction(moves.last()) && in_bounds(n, blank_pos(u), moves.last()) {
                Some(step(n, u, moves.last()))
            } else {
                None
            },
            None => None,
        }
    }
}

/// The moves of `moves`, made in order from `t`, are legal and end at the
/// solved board.
pub open spec fn solves(n: int, t: Seq<Tile>, moves: Seq<char>) -> bool {
    apply_moves(n, t, moves) == Some(solved_tiles(n))
}

/// The cell that the tile with symbol `s` takes on the solved board.
pub open spec fn goal_index(n: int, s: i32) -> int {
    if s == BLANK_TILE {
        n * n - 1
    } else {
        s - 1
    }
}

pub open spec fn abs(x: int) -> int {
    if x < 0 {
        -x
    } else {
        x
    }
}

/// How far the tile in cell `i` is from its cell on the solved board, in
/// rows plus columns; zero for the blank.
pub open spec fn tile_distance(n: int, t: Seq<Tile>, i: int) -> int {
    if t[i].symbol == BLANK_TILE {
        0
    } else {
        let g = goal_index(n, t[i].symbol);
        abs(i / n - g / n) + abs(i % n - g % n)
    }
}

/// The distances of the tiles in the first `k` cells, summed.
pub open spec fn manhattan_upto(n: int, t: Seq<Tile>, k: int) -> int
    decreases k,
{
    if k <= 0 {
        0
    } else {
        manhattan_upto(n, t, k - 1) + tile_distance(n, t, k - 1)
    }
}

/// The Manhattan distance of the board to the solved board.
pub open spec fn manhattan(n: int, t: Seq<Tile>) -> int {
    manhattan_upto(n, t, n * n)
}

/// Whether two tiles at positions `a` and `b` of one line, whose goal
/// positions on it are `ga` and `gb`, stand in the opposite order.
pub open spec fn in_conflict(a: int, b: int, ga: int, gb: int) -> bool {
    (a < b && ga > gb) || (a > b && ga < gb)
}

/// The cell at position `k` of a line: of row `line`, or with `by_col` of
/// column `line`.
pub open spec fn cell(n: int, by_col: bool, line: int, k: int) -> int {
    if by_col {
        k * n + line
    } else {
        line * n + k
    }
}

/// The line (row, or with `by_col` column) of a tile on the solved board.
pub open spec fn goal_line(n: int, by_col: bool, s: i32) -> int {
    if by_col {
        goal_index(n, s) % n
    } else {
        goal_index(n, s) / n
    }
}

/// The position of a tile along its line on the solved board.
pub open spec fn goal_along(n: int, by_col: bool, s: i32) -> int {
    if by_col {
        goal_index(n, s) / n
    } else {
        goal_index(n, s) % n
    }
}

/// What a scan for linear conflicts carries: the tiles already charged, and
/// the count so far.
pub type ConflictScan = (Set<i32>, int);

/// Look at the tiles at positions `i < j` of a line: where neither is the
/// blank nor already charged, both belong to this line on the solved board
/// and stand there in the opposite order, both are charged and the count
/// grows by 2.
pub open spec fn pair_step(
    n: int,
    t: Seq<Tile>,
    by_col: bool,
    line: int,
    i: int,
    j: int,
    st: ConflictScan,
) -> ConflictScan {
    let a = t[cell(n, by_col, line, i)].symbol;
    let b = t[cell(n, by_col, line, j)].symbol;
    if a != BLANK_TILE && b != BLANK_TILE && goal_line(n, by_col, a) == line && goal_line(
        n,
        by_col,
        b,
    ) == line && !st.0.contains(a) && !st.0.contains(b) && in_conflict(
        i,
        j,
        goal_along(n, by_col, a),
        goal_along(n, by_col, b),
    ) {
        (st.0.insert(a).insert(b), st.1 + 2)
    } else {
        st
    }
}

/// The pairs `(i, j), (i, j + 1), ..., (i, n - 1)` of a line, in order.
pub open spec fn scan_pairs(
    n: int,
    t: Seq<Tile>,
    by_col: bool,
    line: int,
    i: int,
    j: int,
    st: ConflictScan,
) -> ConflictScan
    decreases n - j,
{
    if j >= n {
        st
    } else {
        scan_pairs(n, t, by_col, line, i, j + 1, pair_step(n, t, by_col, line, i, j, st))
    }
}

/// The pairs of a line whose first position is `i` or later, in order.
pub open spec fn scan_line(
    n: int,
    t: Seq<Tile>,
    by_col: bool,
    line: int,
    i: int,
    st: ConflictScan,
) -> ConflictScan
    decreases n - i,
{
    if i >= n - 1 {
        st
    } else {
        scan_line(n, t, by_col, line, i + 1, scan_pairs(n, t, by_col, line, i, i + 1, st))
    }
}

/// The lines `line, line + 1, ..., n - 1`, in order.
pub open spec fn scan_lines(n: int, t: Seq<Tile>, by_col: bool, line: int, st: ConflictScan) -> ConflictScan
    decreases n - line,
{
    if line >= n {
        st
    } else {
        scan_lines(n, t, by_col, line + 1, scan_line(n, t, by_col, line, 0, st))
    }
}

/// The scan over all rows, then all columns, starting with nothing charged.
pub open spec fn conflict_scan(n: int, t: Seq<Tile>) -> ConflictScan {
    scan_lines(n, t, true, 0, scan_lines(n, t, false, 0, (Set::empty(), 0)))
}

/// The linear-conflict correction: 2 for each pair found, a tile being
/// charged at most once over all rows and columns.
pub open spec fn conflicts(n: int, t: Seq<Tile>) -> int {
    conflict_scan(n, t).1
}

/// The heuristic of a board: Manhattan distance plus linear conflicts.
pub open spec fn heuristic(n: int, t: Seq<Tile>) -> int {
    manhattan(n, t) + conflicts(n, t)
}

} // verus!

verus! {

/// Row `r`, column `c` of the grid is cell `r * n + c`, and back.
pub proof fn lemma_cell(n: int, r: int, c: int)
    requires
        1 <= n,
        0 <= r < n,
        0 <= c < n,
    ensures
        0 <= r * n + c < n * n,
        (r * n + c) / n == r,
        (r * n + c) % n == c,
{
    lemma_fundamental_div_mod_converse(r * n + c, n, r, c);
    assert(0 <= r * n + c < n * n) by (nonlinear_arith)
        requires
            1 <= n,
            0 <= r < n,
            0 <= c < n,
    ;
}

/// Each cell has a row and a column on the grid.
pub proof fn lemma_row_col(n: int, i: int)
    requires
        1 <= n,
        0 <= i < n * n,
    ensures
        0 <= i / n < n,
        0 <= i % n < n,
        i == (i / n) * n + i % n,
{
    vstd::arithmetic::div_mod::lemma_fundamental_div_mod(i, n);
    vstd::arithmetic::mul::lemma_mul_is_commutative(n, i / n);
    vstd::arithmetic::div_mod::lemma_mod_bound(i, n);
    vstd::arithmetic::div_mod::lemma_div_pos_is_pos(i, n);
    if i / n >= n {
        assert((i / n) * n >= n * n) by (nonlinear_arith)
            requires
                i / n >= n,
                n >= 1,
        ;
    }
}

/// A move that stays on the grid leads to a cell of the grid.
pub proof fn lemma_translate_in_grid(n: int, blank: int, d: char)
    requires
        1 <= n,
        0 <= blank < n * n,
        is_direction(d),
        in_bounds(n, blank, d),
    ensures
        0 <= translate(n, blank, d) < n * n,
{
    if d == RIGHT && blank + 1 == n * n {
        lemma_fundamental_div_mod_converse(n * n, n, n, 0);
    }
    if d == LEFT && blank == 0 {
        lemma_fundamental_div_mod_converse(0, n, 0, 0);
    }
}

/// In a valid board the blank stands in exactly one cell.
pub proof fn lemma_blank_pos(n: int, t: Seq<Tile>, b: int)
    requires
        valid_tiles(n, t),
        0 <= b < t.len(),
        t[b].symbol == BLANK_TILE,
    ensures
        blank_pos(t) == b,
{
    let i = blank_pos(t);
    assert(0 <= i < t.len() && t[i].symbol == BLANK_TILE);
    assert(t[i] == t[b]);
}

/// Exchanging two cells keeps a board valid.
pub proof fn lemma_swap_valid(n: int, t: Seq<Tile>, a: int, b: int)
    requires
        valid_tiles(n, t),
        0 <= a < t.len(),
        0 <= b < t.len(),
    ensures
        valid_tiles(n, swap(t, a, b)),
{
    let u = swap(t, a, b);
    let p = |i: int| if i == a { b } else if i == b { a } else { i };
    assert forall|i: int| 0 <= i < u.len() implies u[i] == t[p(i)] by {}
    assert forall|i: int, j: int|
        0 <= i < u.len() && 0 <= j < u.len() && i != j implies #[trigger] u[i] != #[trigger] u[j] by {
        assert(u[i] == t[p(i)]);
        assert(u[j] == t[p(j)]);
    }
    let k = blank_pos(t);
    assert(u[p(k)] == t[k]);
}

} // verus!

verus! {

/// A side length of the grid bounds the number of cells.
pub proof fn lemma_side(n: int)
    requires
        1 <= n <= MAX_SIDE,
    ensures
        n <= n * n <= MAX_SIDE * MAX_SIDE,
{
    assert(n <= n * n <= MAX_SIDE * MAX_SIDE) by (nonlinear_arith)
        requires
            1 <= n <= MAX_SIDE,
    ;
}

} // verus!

verus! {

/// `m` maps the symbol of each tile of `t` whose cell satisfies `seen` to
/// its row (with `to_row`) or its column, and holds no other symbol.
pub open spec fn partial_position_map(
    m: Map<i32, i32>,
    n: int,
    t: Seq<Tile>,
    to_row: bool,
    seen: spec_fn(int) -> bool,
) -> bool {
    &&& forall|s: i32| #[trigger]
        m.contains_key(s) <==> exists|k: int|
            0 <= k < t.len() && seen(k) && (#[trigger] t[k]).symbol == s
    &&& forall|k: int|
        0 <= k < t.len() && seen(k) ==> m[(#[trigger] t[k]).symbol] as int == if to_row {
            k / n
        } else {
            k % n
        }
}

/// `m` maps the symbol of each tile of `t` to its row (with `to_row`) or its
/// column, and holds no other symbol.
pub open spec fn position_map(m: Map<i32, i32>, n: int, t: Seq<Tile>, to_row: bool) -> bool {
    partial_position_map(m, n, t, to_row, |k: int| true)
}

/// The four maps that the scan for linear conflicts reads: the columns and
/// the rows of the tiles on the solved board and on the board `t`.
pub open spec fn conflict_maps(
    n: int,
    t: Seq<Tile>,
    solved_row_map: Map<i32, i32>,
    solved_col_map: Map<i32, i32>,
    unsolved_row_map: Map<i32, i32>,
    unsolved_col_map: Map<i32, i32>,
) -> bool {
    &&& position_map(solved_row_map, n, solved_tiles(n), false)
    &&& position_map(solved_col_map, n, solved_tiles(n), true)
    &&& position_map(unsolved_row_map, n, t, false)
    &&& position_map(unsolved_col_map, n, t, true)
}

/// A set of charged tiles: finite, and numbered tiles of the grid only.
pub open spec fn charged_ok(n: int, c: Set<i32>) -> bool {
    &&& c.finite()
    &&& forall|x: i32| #[trigger] c.contains(x) ==> 1 <= x < n * n
}

} // verus!

verus! {

/// How many of the four directions stay on the grid from `blank`.
pub open spec fn in_bounds_count(n: int, blank: int) -> int {
    (if in_bounds(n, blank, UP) { 1int } else { 0 }) + (if in_bounds(n, blank, DOWN) {
        1int
    } else {
        0
    }) + (if in_bounds(n, blank, LEFT) { 1int } else { 0 }) + (if in_bounds(n, blank, RIGHT) {
        1int
    } else {
        0
    })
}

/// How many sides of the grid the cell `blank` touches: 2 at a corner, 1 on
/// an edge, 0 inside.
pub open spec fn sides_touched(n: int, blank: int) -> int {
    (if blank / n == 0 { 1int } else { 0 }) + (if blank / n == n - 1 { 1int } else { 0 }) + (
    if blank % n == 0 {
        1int
    } else {
        0
    }) + (if blank % n == n - 1 { 1int } else { 0 })
}

/// The moves a board offers: each is one of the four directions, allowed,
/// and offered once; every allowed direction is offered. A cell has 2, 3 or
/// 4 neighbours (corner, edge, inside), and the move straight back, where
/// there was one and it stays on the grid, is left out.
pub proof fn lemma_allowed_moves(n: int, blank: int, last: char)
    requires
        2 <= n,
        0 <= blank < n * n,
    ensures
        ({
            let s = allowed_moves(n, blank, last);
            &&& forall|k: int|
                0 <= k < s.len() ==> is_direction(#[trigger] s[k]) && move_allowed(
                    n,
                    blank,
                    last,
                    s[k],
                )
            &&& forall|d: char| is_direction(d) && move_allowed(n, blank, last, d) ==> s.contains(d)
            &&& s.no_duplicates()
            &&& s.len() == in_bounds_count(n, blank) - if is_direction(last) && in_bounds(
                n,
                blank,
                opposite(last),
            ) {
                1int
            } else {
                0
            }
        }),
        in_bounds_count(n, blank) == 4 - sides_touched(n, blank),
        0 <= sides_touched(n, blank) <= 2,
        2 <= in_bounds_count(n, blank) <= 4,
{
    let s = allowed_moves(n, blank, last);
    lemma_row_col(n, blank);
    let r = blank / n;
    let c = blank % n;
    // up and down
    assert(blank - n >= 0 <==> r != 0) by (nonlinear_arith)
        requires
            blank == r * n + c,
            0 <= c < n,
            0 <= r,
    ;
    assert(blank + n < n * n <==> r != n - 1) by (nonlinear_arith)
        requires
            blank == r * n + c,
            0 <= c < n,
            0 <= r < n,
    ;
    // right
    if c + 1 == n {
        assert(blank + 1 == (r + 1) * n) by (nonlinear_arith)
            requires
                blank == r * n + c,
                c + 1 == n,
        ;
        lemma_fundamental_div_mod_converse(blank + 1, n, r + 1, 0);
    } else {
        lemma_fundamental_div_mod_converse(blank + 1, n, r, c + 1);
    }
    assert forall|d: char| is_direction(d) && move_allowed(n, blank, last, d) implies s.contains(
        d,
    ) by {
        if d == UP {
            assert(s[0] == UP);
        } else if d == DOWN {
            assert(s[s.len() - 1] == DOWN || s[s.len() - 2] == DOWN || s[s.len() - 3] == DOWN);
        } else if d == LEFT {
            assert(s[s.len() - 1] == LEFT || s[s.len() - 2] == LEFT);
        } else {
            assert(s[s.len() - 1] == RIGHT);
        }
    }
}

/// A board with side at least 2 always offers a move.
pub proof fn lemma_some_move_allowed(n: int, blank: int, last: char)
    requires
        2 <= n,
        0 <= blank < n * n,
    ensures
        allowed_moves(n, blank, last).len() > 0,
        forall|d: char|
            allowed_moves(n, blank, last).contains(d) ==> is_direction(d) && move_allowed(
                n,
                blank,
                last,
                d,
            ),
{
    lemma_allowed_moves(n, blank, last);
}

} // verus!

verus! {

/// The boards met along `moves` from `t`, start and end included, are all
/// different, and no move undoes the one before it.
pub open spec fn simple_path(n: int, t: Seq<Tile>, moves: Seq<char>) -> bool {
    &&& forall|i: int, j: int|
        0 <= i < j <= moves.len() ==> #[trigger] apply_moves(n, t, moves.take(i)) != #[trigger] apply_moves(
            n,
            t,
            moves.take(j),
        )
    &&& forall|i: int| 0 < i < moves.len() ==> #[trigger] moves[i] != opposite(moves[i - 1])
}

} // verus!

verus! {

/// No move of `moves` goes straight back along the one before it, the first
/// one included, which follows a move in direction `last`.
pub open spec fn no_backtrack(last: char, moves: Seq<char>) -> bool {
    &&& moves.len() > 0 ==> last != opposite(moves[0])
    &&& forall|k: int| 0 < k < moves.len() ==> moves[k - 1] != opposite(#[trigger] moves[k])
}

} // verus!

//! Facts about the two parts of the heuristic: bounds on the Manhattan
//! distance, and how the scan for linear conflicts carries its count.
use vstd::prelude::*;
use vstd::set_lib::{lemma_int_range, lemma_len_subset, lemma_map_size_bound, set_int_range};

use crate::model::{
    cell, conflicts, goal_index, heuristic, lemma_cell, lemma_row_col, manhattan, manhattan_upto,
    pair_step, scan_line, scan_lines, scan_pairs, tile_distance, valid_tiles, ConflictScan,
    MAX_SIDE,
};
use crate::tile::{solved_tiles, Tile, BLANK_TILE};

verus! {

/// The cell of a tile on the solved board lies on the grid and holds it.
pub proof fn lemma_goal_index(n: int, s: i32)
    requires
        1 <= n,
        s == BLANK_TILE || 1 <= s < n * n,
    ensures
        0 <= goal_index(n, s) < n * n,
        solved_tiles(n)[goal_index(n, s)].symbol == s,
{
    assert(n * n >= 1) by (nonlinear_arith)
        requires
            1 <= n,
    ;
}

/// The solved board is a valid board.
pub proof fn lemma_solved_valid(n: int)
    requires
        1 <= n,
        n * n <= i32::MAX,
    ensures
        valid_tiles(n, solved_tiles(n)),
{
    assert(n * n >= 1) by (nonlinear_arith)
        requires
            1 <= n,
    ;
    let t = solved_tiles(n);
    assert(t[n * n - 1].symbol == BLANK_TILE);
}

/// No tile is farther than `2 * (n - 1)` from its cell on the solved board.
pub proof fn lemma_tile_distance_bound(n: int, t: Seq<Tile>, i: int)
    requires
        1 <= n,
        valid_tiles(n, t),
        0 <= i < n * n,
    ensures
        0 <= tile_distance(n, t, i) <= 2 * (n - 1),
{
    if t[i].symbol != BLANK_TILE {
        let g = goal_index(n, t[i].symbol);
        lemma_row_col(n, i);
        lemma_row_col(n, g);
    }
}

/// The distances of the first `k` tiles sum to at most `k * 2 * (n - 1)`.
pub proof fn lemma_manhattan_upto_bound(n: int, t: Seq<Tile>, k: int)
    requires
        1 <= n,
        valid_tiles(n, t),
        0 <= k <= n * n,
    ensures
        0 <= manhattan_upto(n, t, k) <= k * (2 * (n - 1)),
    decreases k,
{
    if k > 0 {
        lemma_manhattan_upto_bound(n, t, k - 1);
        lemma_tile_distance_bound(n, t, k - 1);
        assert(k * (2 * (n - 1)) == (k - 1) * (2 * (n - 1)) + 2 * (n - 1)) by (nonlinear_arith);
    }
}

/// The Manhattan distance is at most `n * n * 2 * (n - 1)`.
pub proof fn lemma_manhattan_bound(n: int, t: Seq<Tile>)
    requires
        1 <= n,
        valid_tiles(n, t),
    ensures
        0 <= manhattan(n, t) <= (n * n) * (2 * (n - 1)),
{
    assert(n * n >= 0) by (nonlinear_arith);
    lemma_manhattan_upto_bound(n, t, n * n);
}

proof fn lemma_manhattan_upto_zero_solved(n: int, k: int)
    requires
        1 <= n,
        n * n <= i32::MAX,
        0 <= k <= n * n,
    ensures
        manhattan_upto(n, solved_tiles(n), k) == 0,
    decreases k,
{
    if k > 0 {
        lemma_manhattan_upto_zero_solved(n, k - 1);
        let t = solved_tiles(n);
        if k < n * n {
            assert(t[k - 1].symbol == k);
        } else {
            assert(t[k - 1].symbol == BLANK_TILE);
        }
    }
}

proof fn lemma_manhattan_upto_zero_terms(n: int, t: Seq<Tile>, k: int)
    requires
        1 <= n,
        valid_tiles(n, t),
        0 <= k <= n * n,
        manhattan_upto(n, t, k) == 0,
    ensures
        forall|i: int| 0 <= i < k ==> tile_distance(n, t, i) == 0,
    decreases k,
{
    if k > 0 {
        lemma_manhattan_upto_bound(n, t, k - 1);
        lemma_tile_distance_bound(n, t, k - 1);
        lemma_manhattan_upto_zero_terms(n, t, k - 1);
    }
}

/// The Manhattan distance is zero exactly on the solved board.
pub proof fn lemma_manhattan_zero(n: int, t: Seq<Tile>)
    requires
        1 <= n,
        n * n <= i32::MAX,
        valid_tiles(n, t),
    ensures
        manhattan(n, t) == 0 <==> t == solved_tiles(n),
{
    assert(n * n >= 1) by (nonlinear_arith)
        requires
            1 <= n,
    ;
    if t == solved_tiles(n) {
        lemma_manhattan_upto_zero_solved(n, n * n);
    }
    if manhattan(n, t) == 0 {
        lemma_manhattan_upto_zero_terms(n, t, n * n);
        let s = solved_tiles(n);
        // Every numbered tile stands in its own cell.
        assert forall|i: int| 0 <= i < n * n && t[i].symbol != BLANK_TILE implies t[i].symbol
            == i + 1 by {
            assert(tile_distance(n, t, i) == 0);
            let g = goal_index(n, t[i].symbol);
            lemma_row_col(n, i);
            lemma_row_col(n, g);
        }
        // So the last cell holds the blank, and no other cell does.
        let last = n * n - 1;
        assert(t[last].symbol == BLANK_TILE);
        assert forall|i: int| 0 <= i < n * n implies t[i] == s[i] by {
            if i != last {
                assert(t[i] != t[last]);
            }
        }
        assert(t =~= s);
    }
}

// ---- the scan for linear conflicts ----

/// What a scan for linear conflicts keeps, counted from the state `from`:
/// the charged tiles grow, are numbered tiles of the grid, and the count
/// grew by their number, an even one.
pub open spec fn scan_inv(n: int, st: ConflictScan, from: ConflictScan) -> bool {
    &&& st.0.finite()
    &&& from.0.subset_of(st.0)
    &&& st.1 - from.1 == st.0.len() - from.0.len()
    &&& (st.1 - from.1) % 2 == 0
    &&& forall|x: i32| #[trigger] st.0.contains(x) ==> 1 <= x < n * n
}

pub open spec fn line_ok(n: int, t: Seq<Tile>, line: int) -> bool {
    1 <= n && valid_tiles(n, t) && 0 <= line < n
}

/// One look at a pair keeps the scan's invariant.
pub proof fn lemma_pair_step_inv(
    n: int,
    t: Seq<Tile>,
    by_col: bool,
    line: int,
    i: int,
    j: int,
    st: ConflictScan,
    from: ConflictScan,
)
    requires
        line_ok(n, t, line),
        0 <= i < j < n,
        scan_inv(n, st, from),
    ensures
        scan_inv(n, pair_step(n, t, by_col, line, i, j, st), from),
{
    let ci = cell(n, by_col, line, i);
    let cj = cell(n, by_col, line, j);
    if by_col {
        lemma_cell(n, i, line);
        lemma_cell(n, j, line);
    } else {
        lemma_cell(n, line, i);
        lemma_cell(n, line, j);
    }
    assert(ci != cj) by (nonlinear_arith)
        requires
            ci == (if by_col { i * n + line } else { line * n + i }),
            cj == (if by_col { j * n + line } else { line * n + j }),
            i < j,
            1 <= n,
    ;
    let a = t[ci].symbol;
    let b = t[cj].symbol;
    let nx = pair_step(n, t, by_col, line, i, j, st);
    if nx != st {
        assert(t[ci] != t[cj]);
        assert(a != b);
        let s1 = st.0.insert(a);
        assert(s1.len() == st.0.len() + 1);
        assert(nx.0.len() == s1.len() + 1);
    }
}

/// Scanning the pairs of a line from `(i, j)` on keeps the invariant.
pub proof fn lemma_scan_pairs_inv(
    n: int,
    t: Seq<Tile>,
    by_col: bool,
    line: int,
    i: int,
    j: int,
    st: ConflictScan,
    from: ConflictScan,
)
    requires
        line_ok(n, t, line),
        0 <= i < j,
        i < n,
        scan_inv(n, st, from),
    ensures
        scan_inv(n, scan_pairs(n, t, by_col, line, i, j, st), from),
    decreases n - j,
{
    if j < n {
        lemma_pair_step_inv(n, t, by_col, line, i, j, st, from);
        lemma_scan_pairs_inv(n, t, by_col, line, i, j + 1, pair_step(n, t, by_col, line, i, j, st), from);
    }
}

/// Scanning a line from position `i` on keeps the invariant.
pub proof fn lemma_scan_line_inv(
    n: int,
    t: Seq<Tile>,
    by_col: bool,
    line: int,
    i: int,
    st: ConflictScan,
    from: ConflictScan,
)
    requires
        line_ok(n, t, line),
        0 <= i,
        scan_inv(n, st, from),
    ensures
        scan_inv(n, scan_line(n, t, by_col, line, i, st), from),
    decreases n - i,
{
    if i < n - 1 {
        lemma_scan_pairs_inv(n, t, by_col, line, i, i + 1, st, from);
        lemma_scan_line_inv(n, t, by_col, line, i + 1, scan_pairs(n, t, by_col, line, i, i + 1, st), from);
    }
}

/// Scanning the lines from `line` on keeps the invariant.
pub proof fn lemma_scan_lines_inv(
    n: int,
    t: Seq<Tile>,
    by_col: bool,
    line: int,
    st: ConflictScan,
    from: ConflictScan,
)
    requires
        1 <= n,
        valid_tiles(n, t),
        0 <= line,
        scan_inv(n, st, from),
    ensures
        scan_inv(n, scan_lines(n, t, by_col, line, st), from),
    decreases n - line,
{
    if line < n {
        lemma_scan_line_inv(n, t, by_col, line, 0, st, from);
        lemma_scan_lines_inv(n, t, by_col, line + 1, scan_line(n, t, by_col, line, 0, st), from);
    }
}

/// The scan's invariant holds from any state to itself.
pub proof fn lemma_scan_inv_refl(n: int, st: ConflictScan)
    requires
        st.0.finite(),
        forall|x: i32| #[trigger] st.0.contains(x) ==> 1 <= x < n * n,
    ensures
        scan_inv(n, st, st),
{
}

/// At most `n * n - 1` tiles are ever charged.
pub proof fn lemma_charged_bound(n: int, s: Set<i32>)
    requires
        1 <= n,
        s.finite(),
        forall|x: i32| #[trigger] s.contains(x) ==> 1 <= x < n * n,
    ensures
        s.len() <= n * n - 1,
{
    assert(n * n >= 1) by (nonlinear_arith)
        requires
            1 <= n,
    ;
    let r = set_int_range(1, n * n);
    lemma_int_range(1, n * n);
    let f = |x: int| x as i32;
    let img = r.map(f);
    lemma_map_size_bound(r, img, f);
    assert forall|x: i32| s.contains(x) implies img.contains(x) by {
        assert(r.contains(x as int));
        assert(f(x as int) == x);
    }
    lemma_len_subset(s, img);
}

/// The count that a pair look adds does not depend on the count before.
pub proof fn lemma_pair_step_shift(
    n: int,
    t: Seq<Tile>,
    by_col: bool,
    line: int,
    i: int,
    j: int,
    c: Set<i32>,
    a: int,
)
    ensures
        pair_step(n, t, by_col, line, i, j, (c, a)).0 == pair_step(n, t, by_col, line, i, j, (c, 0)).0,
        pair_step(n, t, by_col, line, i, j, (c, a)).1 == a + pair_step(n, t, by_col, line, i, j, (c, 0)).1,
{
}

/// The count that scanning pairs adds does not depend on the count before.
pub proof fn lemma_scan_pairs_shift(
    n: int,
    t: Seq<Tile>,
    by_col: bool,
    line: int,
    i: int,
    j: int,
    c: Set<i32>,
    a: int,
)
    ensures
        scan_pairs(n, t, by_col, line, i, j, (c, a)).0 == scan_pairs(n, t, by_col, line, i, j, (c, 0)).0,
        scan_pairs(n, t, by_col, line, i, j, (c, a)).1 == a + scan_pairs(n, t, by_col, line, i, j, (c, 0)).1,
    decreases n - j,
{
    if j < n {
        lemma_pair_step_shift(n, t, by_col, line, i, j, c, a);
        let p = pair_step(n, t, by_col, line, i, j, (c, 0));
        lemma_scan_pairs_shift(n, t, by_col, line, i, j + 1, p.0, a + p.1);
        lemma_scan_pairs_shift(n, t, by_col, line, i, j + 1, p.0, p.1);
    }
}

/// The count that scanning a line adds does not depend on the count before.
pub proof fn lemma_scan_line_shift(
    n: int,
    t: Seq<Tile>,
    by_col: bool,
    line: int,
    i: int,
    c: Set<i32>,
    a: int,
)
    ensures
        scan_line(n, t, by_col, line, i, (c, a)).0 == scan_line(n, t, by_col, line, i, (c, 0)).0,
        scan_line(n, t, by_col, line, i, (c, a)).1 == a + scan_line(n, t, by_col, line, i, (c, 0)).1,
    decreases n - i,
{
    if i < n - 1 {
        lemma_scan_pairs_shift(n, t, by_col, line, i, i + 1, c, a);
        let p = scan_pairs(n, t, by_col, line, i, i + 1, (c, 0));
        lemma_scan_line_shift(n, t, by_col, line, i + 1, p.0, a + p.1);
        lemma_scan_line_shift(n, t, by_col, line, i + 1, p.0, p.1);
    }
}

/// A pair whose first tile is the blank is never charged.
pub proof fn lemma_scan_pairs_blank(
    n: int,
    t: Seq<Tile>,
    by_col: bool,
    line: int,
    i: int,
    j: int,
    st: ConflictScan,
)
    requires
        t[cell(n, by_col, line, i)].symbol == BLANK_TILE,
    ensures
        scan_pairs(n, t, by_col, line, i, j, st) == st,
    decreases n - j,
{
    if j < n {
        lemma_scan_pairs_blank(n, t, by_col, line, i, j + 1, st);
    }
}

/// The linear-conflict correction of a valid board is even, not negative,
/// and below the number of cells.
pub proof fn lemma_conflicts_range(n: int, t: Seq<Tile>)
    requires
        1 <= n,
        valid_tiles(n, t),
    ensures
        0 <= conflicts(n, t) <= n * n - 1,
        conflicts(n, t) % 2 == 0,
{
    let start: (Set<i32>, int) = (Set::empty(), 0);
    lemma_scan_inv_refl(n, start);
    lemma_scan_lines_inv(n, t, false, 0, start, start);
    let rows = scan_lines(n, t, false, 0, start);
    lemma_scan_lines_inv(n, t, true, 0, rows, start);
    let all = scan_lines(n, t, true, 0, rows);
    lemma_charged_bound(n, all.0);
}

/// The heuristic of a valid board of side at most `MAX_SIDE` stays below
/// 1999000000.
pub proof fn lemma_heuristic_bound(n: int, t: Seq<Tile>)
    requires
        1 <= n <= MAX_SIDE,
        valid_tiles(n, t),
    ensures
        0 <= heuristic(n, t) < 1_999_000_000,
{
    lemma_manhattan_bound(n, t);
    lemma_conflicts_range(n, t);
    assert((n * n) * (2 * (n - 1)) + n * n - 1 < 1_999_000_000) by (nonlinear_arith)
        requires
            1 <= n <= MAX_SIDE,
    ;
}

} // verus!

//! Laws of the puzzle model that relate several moves or boards.
use vstd::prelude::*;

use crate::heuristic::{lemma_conflicts_range, lemma_manhattan_zero};
use crate::model::{
    abs, apply_moves, blank_pos, conflicts, simple_path, solves, goal_index, in_bounds, is_direction, lemma_blank_pos, lemma_row_col,
    lemma_swap_valid, lemma_translate_in_grid, manhattan, manhattan_upto, opposite,
    step, swap, tile_distance, translate, valid_tiles, DOWN, LEFT, UP,
};
use crate::tile::{Tile, BLANK_TILE};

verus! {

/// Undoing a move: after the blank moves in direction `d`, it can move in
/// the opposite direction, and that brings back the tiles as they were.
pub proof fn lemma_move_undo(n: int, t: Seq<Tile>, d: char)
    requires
        1 <= n,
        valid_tiles(n, t),
        is_direction(d),
        in_bounds(n, blank_pos(t), d),
    ensures
        valid_tiles(n, step(n, t, d)),
        in_bounds(n, blank_pos(step(n, t, d)), opposite(d)),
        step(n, step(n, t, d), opposite(d)) == t,
{
    let b = blank_pos(t);
    assert(0 <= b < t.len() && t[b].symbol == BLANK_TILE);
    let k = translate(n, b, d);
    lemma_translate_in_grid(n, b, d);
    let u = swap(t, b, k);
    lemma_swap_valid(n, t, b, k);
    lemma_blank_pos(n, u, k);
    assert(translate(n, k, opposite(d)) == b);
    assert(swap(u, k, b) =~= t);
}

/// The linear-conflict correction of a valid board is even and not
/// negative.
pub proof fn lemma_conflicts_even(n: int, t: Seq<Tile>)
    requires
        1 <= n,
        valid_tiles(n, t),
    ensures
        conflicts(n, t) >= 0,
        conflicts(n, t) % 2 == 0,
{
    lemma_conflicts_range(n, t);
}

/// Two boards whose tiles agree but at cells `a` and `b` have Manhattan
/// sums that differ by what those two cells contribute.
proof fn lemma_manhattan_upto_two_cells(n: int, t: Seq<Tile>, u: Seq<Tile>, a: int, b: int, k: int)
    requires
        0 <= k <= t.len(),
        t.len() == u.len(),
        0 <= a < t.len(),
        0 <= b < t.len(),
        a != b,
        forall|i: int|
            0 <= i < t.len() && i != a && i != b ==> tile_distance(n, t, i) == tile_distance(n, u, i),
    ensures
        manhattan_upto(n, u, k) - manhattan_upto(n, t, k) == (if a < k {
            tile_distance(n, u, a) - tile_distance(n, t, a)
        } else {
            0
        }) + (if b < k {
            tile_distance(n, u, b) - tile_distance(n, t, b)
        } else {
            0
        }),
    decreases k,
{
    if k > 0 {
        lemma_manhattan_upto_two_cells(n, t, u, a, b, k - 1);
        if k - 1 != a && k - 1 != b {
            assert(tile_distance(n, t, k - 1) == tile_distance(n, u, k - 1));
        }
    }
}

/// Each move of the blank changes the Manhattan distance by exactly one; so
/// one move deeper, depth plus Manhattan distance is at least what it was.
pub proof fn lemma_manhattan_step(n: int, t: Seq<Tile>, d: char)
    requires
        1 <= n,
        valid_tiles(n, t),
        is_direction(d),
        in_bounds(n, blank_pos(t), d),
    ensures
        abs(manhattan(n, step(n, t, d)) - manhattan(n, t)) == 1,
        manhattan(n, step(n, t, d)) + 1 >= manhattan(n, t),
{
    let b = blank_pos(t);
    assert(0 <= b < t.len() && t[b].symbol == BLANK_TILE);
    let k = translate(n, b, d);
    lemma_translate_in_grid(n, b, d);
    let u = swap(t, b, k);
    assert(u == step(n, t, d));
    lemma_swap_valid(n, t, b, k);
    assert(k != b);
    assert forall|i: int|
        0 <= i < t.len() && i != b && i != k implies tile_distance(n, t, i) == tile_distance(
        n,
        u,
        i,
    ) by {
        assert(u[i] == t[i]);
    }
    lemma_manhattan_upto_two_cells(n, t, u, b, k, n * n);
    // The tile that moves goes from cell `k` to cell `b`, one row or one
    // column over.
    let x = t[k];
    assert(x != t[b]);
    assert(x.symbol != BLANK_TILE);
    let g = goal_index(n, x.symbol);
    lemma_row_col(n, b);
    lemma_row_col(n, k);
    lemma_row_col(n, g);
    assert(tile_distance(n, u, k) == 0);
    assert(tile_distance(n, t, b) == 0);
    assert(tile_distance(n, u, b) == abs(b / n - g / n) + abs(b % n - g % n));
    assert(tile_distance(n, t, k) == abs(k / n - g / n) + abs(k % n - g % n));
    if d == UP || d == DOWN {
        let q = if d == UP { b / n - 1 } else { b / n + 1 };
        assert(k == q * n + b % n) by (nonlinear_arith)
            requires
                b == (b / n) * n + b % n,
                k == (if d == UP { b - n } else { b + n }),
                q == (if d == UP { b / n - 1 } else { b / n + 1 }),
        ;
        vstd::arithmetic::div_mod::lemma_fundamental_div_mod_converse(k, n, q, b % n);
    } else {
        let cc = if d == LEFT { b % n - 1 } else { b % n + 1 };
        if d == LEFT {
            assert(b % n != 0);
        } else {
            assert((b + 1) % n != 0);
            if b % n == n - 1 {
                assert(b + 1 == (b / n + 1) * n) by (nonlinear_arith)
                    requires
                        b == (b / n) * n + b % n,
                        b % n == n - 1,
                ;
                vstd::arithmetic::div_mod::lemma_fundamental_div_mod_converse(b + 1, n, b / n + 1, 0);
            }
        }
        vstd::arithmetic::div_mod::lemma_fundamental_div_mod_converse(k, n, b / n, cc);
    }
}

/// Making the moves `a` and then the moves `b` is making the moves `a + b`.
pub proof fn lemma_apply_concat(n: int, t: Seq<Tile>, a: Seq<char>, b: Seq<char>)
    ensures
        apply_moves(n, t, a + b) == match apply_moves(n, t, a) {
            Some(u) => apply_moves(n, u, b),
            None => None,
        },
    decreases b.len(),
{
    if b.len() == 0 {
        assert(a + b =~= a);
    } else {
        lemma_apply_concat(n, t, a, b.drop_last());
        assert((a + b).drop_last() =~= a + b.drop_last());
        assert((a + b).last() == b.last());
    }
}

/// Legal moves keep a board valid.
pub proof fn lemma_apply_valid(n: int, t: Seq<Tile>, moves: Seq<char>)
    requires
        1 <= n,
        valid_tiles(n, t),
        apply_moves(n, t, moves) is Some,
    ensures
        valid_tiles(n, apply_moves(n, t, moves)->0),
    decreases moves.len(),
{
    if moves.len() > 0 {
        lemma_apply_valid(n, t, moves.drop_last());
        let u = apply_moves(n, t, moves.drop_last())->0;
        lemma_move_undo(n, u, moves.last());
    }
}

/// The boards on the way are reached by the first moves.
pub proof fn lemma_apply_prefix(n: int, t: Seq<Tile>, moves: Seq<char>, j: int)
    requires
        0 <= j <= moves.len(),
        apply_moves(n, t, moves) is Some,
    ensures
        apply_moves(n, t, moves.take(j)) is Some,
    decreases moves.len() - j,
{
    if j < moves.len() {
        lemma_apply_prefix(n, t, moves, j + 1);
        assert(moves.take(j + 1).drop_last() =~= moves.take(j));
    } else {
        assert(moves.take(j) =~= moves);
    }
}

/// Where moves reach the solved board, the board after the first `j` of
/// them is at Manhattan distance at most the number of moves left.
pub proof fn lemma_manhattan_to_go(n: int, t: Seq<Tile>, moves: Seq<char>, j: int)
    requires
        1 <= n,
        n * n <= i32::MAX,
        valid_tiles(n, t),
        0 <= j <= moves.len(),
        solves(n, t, moves),
    ensures
        apply_moves(n, t, moves.take(j)) is Some,
        manhattan(n, apply_moves(n, t, moves.take(j))->0) <= moves.len() - j,
    decreases moves.len() - j,
{
    lemma_apply_prefix(n, t, moves, j);
    let u = apply_moves(n, t, moves.take(j))->0;
    lemma_apply_valid(n, t, moves.take(j));
    if j == moves.len() {
        assert(moves.take(j) =~= moves);
        lemma_manhattan_zero(n, u);
    } else {
        lemma_manhattan_to_go(n, t, moves, j + 1);
        assert(moves.take(j + 1).drop_last() =~= moves.take(j));
        assert(moves.take(j + 1).last() == moves[j]);
        lemma_manhattan_step(n, u, moves[j]);
    }
}

/// Any solution is at least as long as the Manhattan distance.
pub proof fn lemma_manhattan_admissible(n: int, t: Seq<Tile>, moves: Seq<char>)
    requires
        1 <= n,
        n * n <= i32::MAX,
        valid_tiles(n, t),
        solves(n, t, moves),
    ensures
        manhattan(n, t) <= moves.len(),
{
    lemma_manhattan_to_go(n, t, moves, 0);
    assert(moves.take(0) =~= Seq::<char>::empty());
}

/// A shortest solution never comes back to a board it has met, so no move
/// of it undoes the one before.
pub proof fn lemma_shortest_is_simple(n: int, t: Seq<Tile>, moves: Seq<char>)
    requires
        1 <= n,
        valid_tiles(n, t),
        solves(n, t, moves),
        forall|m: Seq<char>| #[trigger] solves(n, t, m) ==> moves.len() <= m.len(),
    ensures
        simple_path(n, t, moves),
{
    assert forall|i: int, j: int| 0 <= i < j <= moves.len() implies #[trigger] apply_moves(
        n,
        t,
        moves.take(i),
    ) != #[trigger] apply_moves(n, t, moves.take(j)) by {
        if apply_moves(n, t, moves.take(i)) == apply_moves(n, t, moves.take(j)) {
            let rest = moves.skip(j);
            let shorter = moves.take(i) + rest;
            lemma_apply_concat(n, t, moves.take(i), rest);
            lemma_apply_concat(n, t, moves.take(j), rest);
            assert(moves.take(j) + rest =~= moves);
            assert(solves(n, t, shorter));
        }
    }
    assert forall|i: int| 0 < i < moves.len() implies #[trigger] moves[i] != opposite(
        moves[i - 1],
    ) by {
        if moves[i] == opposite(moves[i - 1]) {
            lemma_apply_prefix(n, t, moves, i + 1);
            let a = apply_moves(n, t, moves.take(i - 1))->0;
            assert(moves.take(i + 1).drop_last() =~= moves.take(i));
            assert(moves.take(i).drop_last() =~= moves.take(i - 1));
            assert(moves.take(i + 1).last() == moves[i]);
            assert(moves.take(i).last() == moves[i - 1]);
            lemma_apply_prefix(n, t, moves, i - 1);
            lemma_apply_prefix(n, t, moves, i);
            let b = apply_moves(n, t, moves.take(i))->0;
            assert(is_direction(moves[i - 1]) && in_bounds(n, blank_pos(a), moves[i - 1]));
            assert(b == step(n, a, moves[i - 1]));
            assert(opposite(opposite(moves[i - 1])) == moves[i - 1]);
            lemma_apply_valid(n, t, moves.take(i - 1));
            lemma_move_undo(n, a, moves[i - 1]);
            assert(apply_moves(n, t, moves.take(i - 1)) == apply_moves(n, t, moves.take(i + 1)));
        }
    }
}

} // verus!

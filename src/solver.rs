//! The best-first search: from a scrambled board to the solved one.
use vstd::prelude::*;
use vstd::string::StringExecFns;

use crate::board::Board;
use crate::heuristic::{lemma_heuristic_bound, lemma_manhattan_bound};
use crate::heuristic::{lemma_manhattan_zero, lemma_solved_valid};
use crate::laws::{
    lemma_apply_prefix, lemma_manhattan_to_go, lemma_move_undo, lemma_shortest_is_simple,
};
use crate::model::{
    allowed_moves, lemma_allowed_moves, lemma_side, simple_path, solves, valid_tiles,
    apply_moves, blank_pos, manhattan, in_bounds, is_direction, lemma_blank_pos, opposite, step, DOWN, LEFT,
    MAX_SIDE, NO_DIRECTION, UP,
};
use crate::states::lemma_distinct_boards_bound;
use crate::tile::{solved_tiles, Tile};
use vstd::arithmetic::power::{lemma_pow_positive, pow};

verus! {

/// Deepest node the search creates; up to it every cost fits in an `i32`.
pub const MAX_DEPTH: i32 = 100_000_000;

/// The one-character text of a direction.
fn direction_str(d: char) -> (r: &'static str)
    requires
        is_direction(d),
    ensures
        r@ == seq![d],
{
    proof {
        reveal_strlit("U");
        reveal_strlit("D");
        reveal_strlit("L");
        reveal_strlit("R");
    }
    if d == UP {
        "U"
    } else if d == DOWN {
        "D"
    } else if d == LEFT {
        "L"
    } else {
        "R"
    }
}

/// The index of the first board of lowest cost in `frontier`.
fn lowest_cost_index<'a>(frontier: &Vec<Board<'a>>) -> (r: usize)
    requires
        frontier@.len() > 0,
    ensures
        r < frontier@.len(),
        forall|j: int| 0 <= j < frontier@.len() ==> frontier@[r as int].cost <= (#[trigger] frontier@[j]).cost,
{
    let mut best: usize = 0;
    let mut i: usize = 1;
    while i < frontier.len()
        invariant
            1 <= i <= frontier@.len(),
            best < i,
            forall|j: int| 0 <= j < i ==> frontier@[best as int].cost <= (#[trigger] frontier@[j]).cost,
        decreases frontier@.len() - i,
    {
        if frontier[i].cost < frontier[best].cost {
            best = i;
        }
        i = i + 1;
    }
    best
}

/// Take out of `frontier` the first board of lowest cost.
pub fn pop_lowest_cost<'a>(frontier: &mut Vec<Board<'a>>) -> (r: Board<'a>)
    requires
        old(frontier)@.len() > 0,
    ensures
        exists|k: int|
            0 <= k < old(frontier)@.len() && r == old(frontier)@[k] && final(frontier)@ == old(
                frontier,
            )@.remove(k) && forall|j: int|
                0 <= j < old(frontier)@.len() ==> r.cost <= (#[trigger] old(frontier)@[j]).cost,
{
    let k = lowest_cost_index(frontier);
    frontier.remove(k)
}

/// Whether every value of `bounds` is at least `g`.
fn all_at_least(bounds: &Vec<i32>, g: i32) -> (r: bool)
    ensures
        r == forall|k: int| 0 <= k < bounds@.len() ==> #[trigger] bounds@[k] >= g,
{
    let mut i: usize = 0;
    while i < bounds.len()
        invariant
            0 <= i <= bounds@.len(),
            forall|k: int| 0 <= k < i ==> #[trigger] bounds@[k] >= g,
        decreases bounds@.len() - i,
    {
        if bounds[i] < g {
            return false;
        }
        i = i + 1;
    }
    true
}

/// The index of the board of `seen` with the tiles of `board`, if any.
fn find_seen<'a>(seen: &Vec<Board<'a>>, board: &Board<'a>) -> (r: Option<usize>)
    ensures
        r is Some ==> r->0 < seen@.len() && seen@[r->0 as int].tiles@ == board.tiles@,
        r is None ==> forall|j: int| 0 <= j < seen@.len() ==> (#[trigger] seen@[j]).tiles@ != board.tiles@,
{
    let mut i: usize = 0;
    while i < seen.len()
        invariant
            0 <= i <= seen@.len(),
            forall|j: int| 0 <= j < i ==> (#[trigger] seen@[j]).tiles@ != board.tiles@,
        decreases seen@.len() - i,
    {
        if seen[i].eq(board) {
            return Some(i);
        }
        i = i + 1;
    }
    None
}

/// The depths of the boards of `s`, summed.
spec fn depth_sum(s: Seq<Board>) -> int
    decreases s.len(),
{
    if s.len() == 0 {
        0
    } else {
        depth_sum(s.drop_last()) + s.last().depth
    }
}

/// `b` is `a` with more boards after it, or with some depths lowered.
spec fn refines(a: Seq<Board>, b: Seq<Board>) -> bool {
    &&& a.len() <= b.len()
    &&& forall|j: int|
        0 <= j < a.len() ==> (#[trigger] b[j]).tiles@ == a[j].tiles@ && b[j].depth <= a[j].depth
}

proof fn lemma_depth_sum_refines(a: Seq<Board>, b: Seq<Board>)
    requires
        refines(a, b),
        a.len() == b.len(),
    ensures
        depth_sum(b) <= depth_sum(a),
        (exists|j: int| 0 <= j < a.len() && (#[trigger] b[j]).depth < a[j].depth) ==> depth_sum(b)
            < depth_sum(a),
    decreases a.len(),
{
    if a.len() > 0 {
        let a1 = a.drop_last();
        let b1 = b.drop_last();
        assert(refines(a1, b1)) by {
            assert forall|j: int| 0 <= j < a1.len() implies (#[trigger] b1[j]).tiles@ == a1[j].tiles@
                && b1[j].depth <= a1[j].depth by {
                assert(b1[j] == b[j] && a1[j] == a[j]);
            }
        }
        lemma_depth_sum_refines(a1, b1);
        assert(b.last() == b[b.len() - 1]);
        if exists|j: int| 0 <= j < a.len() && (#[trigger] b[j]).depth < a[j].depth {
            let j = choose|j: int| 0 <= j < a.len() && (#[trigger] b[j]).depth < a[j].depth;
            if j < a.len() - 1 {
                assert(b1[j] == b[j] && a1[j] == a[j]);
            }
        }
    }
}

proof fn lemma_depth_sum_nonneg(s: Seq<Board>)
    requires
        forall|j: int| 0 <= j < s.len() ==> (#[trigger] s[j]).depth >= 0,
    ensures
        depth_sum(s) >= 0,
    decreases s.len(),
{
    if s.len() > 0 {
        let s1 = s.drop_last();
        assert forall|j: int| 0 <= j < s1.len() implies (#[trigger] s1[j]).depth >= 0 by {
            assert(s1[j] == s[j]);
        }
        lemma_depth_sum_nonneg(s1);
        assert(s.last() == s[s.len() - 1]);
    }
}

/// Some board of `seen` holds the tiles `t` at depth `d` or less.
spec fn has_state_within(seen: Seq<Board>, t: Seq<Tile>, d: int) -> bool {
    exists|j: int| 0 <= j < seen.len() && (#[trigger] seen[j]).tiles@ == t && seen[j].depth <= d
}

/// Some board of `frontier` holds the tiles `t` at depth `d`.
spec fn in_frontier(frontier: Seq<Board>, t: Seq<Tile>, d: int) -> bool {
    exists|k: int|
        0 <= k < frontier.len() && (#[trigger] frontier[k]).tiles@ == t && frontier[k].depth == d
}

/// The tiles `t`, reached at depth `d`, are not solved, and each board one
/// move away has been reached at depth `d + 1` or less (unless `d` is the
/// deepest depth).
spec fn expanded(n: int, seen: Seq<Board>, t: Seq<Tile>, d: int) -> bool {
    &&& t != solved_tiles(n)
    &&& forall|m: char|
        is_direction(m) && in_bounds(n, blank_pos(t), m) && d < MAX_DEPTH ==> has_state_within(
            seen,
            #[trigger] step(n, t, m),
            d + 1,
        )
}

/// A node of the search from the tiles `t0`: its path leads there from
/// `t0`, its depth is the length of its path, and its last direction the
/// last move of the path.
spec fn node_ok(b: Board, n: int, solved: &Board, t0: Seq<Tile>) -> bool {
    &&& b.wf()
    &&& b.n == n
    &&& b.solved_board == Some(solved)
    &&& 0 <= b.depth <= MAX_DEPTH
    &&& b.path@.len() == b.depth
    &&& apply_moves(n, t0, b.path@) == Some(b.tiles@)
    &&& b.depth == 0 ==> b.last_direction == NO_DIRECTION
    &&& b.depth > 0 ==> b.last_direction == b.path@.last()
}

/// The board that a node came from has been reached one move less deep.
spec fn parent_seen(b: Board, n: int, seen: Seq<Board>) -> bool {
    b.depth > 0 ==> has_state_within(
        seen,
        step(n, b.tiles@, opposite(b.last_direction)),
        b.depth - 1,
    )
}

/// The solved board found so far, `best`, holds the tiles `t` at depth `d`.
spec fn candidate(best: Option<Board>, t: Seq<Tile>, d: int) -> bool {
    best is Some && best->0.tiles@ == t && best->0.depth == d
}

/// `bounds` holds, for each board of `frontier`, its depth plus its
/// Manhattan distance: no solution through it is shorter.
spec fn bounds_ok(n: int, frontier: Seq<Board>, bounds: Seq<i32>) -> bool {
    &&& bounds.len() == frontier.len()
    &&& forall|k: int|
        0 <= k < frontier.len() ==> #[trigger] bounds[k] == frontier[k].depth + manhattan(
            n,
            frontier[k].tiles@,
        )
}

/// What holds of the frontier and of the boards reached, from the tiles
/// `t0`: every board reached waits in the frontier at its depth, has been
/// expanded, or is the solved board found so far, `best`; `pend` names a
/// board taken out of the frontier and being expanded.
spec fn search_inv(
    n: int,
    solved: &Board,
    t0: Seq<Tile>,
    seen: Seq<Board>,
    frontier: Seq<Board>,
    pend: Option<(Seq<Tile>, int)>,
    best: Option<Board>,
) -> bool {
    &&& best is Some ==> {
        &&& node_ok(best->0, n, solved, t0)
        &&& best->0.tiles@ == solved_tiles(n)
        &&& has_state_within(seen, solved_tiles(n), best->0.depth as int)
    }
    &&& forall|k: int|
        0 <= k < frontier.len() ==> node_ok(#[trigger] frontier[k], n, solved, t0)
            && has_state_within(seen, frontier[k].tiles@, frontier[k].depth as int) && parent_seen(
            frontier[k],
            n,
            seen,
        )
    &&& forall|i: int| 0 <= i < seen.len() ==> node_ok(#[trigger] seen[i], n, solved, t0)
    &&& forall|i: int, j: int|
        0 <= i < seen.len() && 0 <= j < seen.len() && i != j ==> (#[trigger] seen[i]).tiles@ != (
        #[trigger] seen[j]).tiles@
    &&& has_state_within(seen, t0, 0)
    &&& forall|i: int|
        0 <= i < seen.len() ==> pend == Some(((#[trigger] seen[i]).tiles@, seen[i].depth as int))
            || in_frontier(frontier, seen[i].tiles@, seen[i].depth as int) || expanded(
            n,
            seen,
            seen[i].tiles@,
            seen[i].depth as int,
        ) || candidate(best, seen[i].tiles@, seen[i].depth as int)
}

proof fn lemma_within_refines(a: Seq<Board>, b: Seq<Board>, t: Seq<Tile>, d: int, e: int)
    requires
        refines(a, b),
        has_state_within(a, t, d),
        d <= e,
    ensures
        has_state_within(b, t, e),
{
    let j = choose|j: int| 0 <= j < a.len() && (#[trigger] a[j]).tiles@ == t && a[j].depth <= d;
    assert(b[j].tiles@ == t);
}

proof fn lemma_expanded_refines(n: int, a: Seq<Board>, b: Seq<Board>, t: Seq<Tile>, d: int)
    requires
        refines(a, b),
        expanded(n, a, t, d),
    ensures
        expanded(n, b, t, d),
{
    assert forall|m: char|
        is_direction(m) && in_bounds(n, blank_pos(t), m) && d < MAX_DEPTH implies has_state_within(
        b,
        #[trigger] step(n, t, m),
        d + 1,
    ) by {
        lemma_within_refines(a, b, step(n, t, m), d + 1, d + 1);
    }
}

proof fn lemma_frontier_push(f: Seq<Board>, x: Board, t: Seq<Tile>, d: int)
    requires
        in_frontier(f, t, d),
    ensures
        in_frontier(f.push(x), t, d),
{
    let k = choose|k: int| 0 <= k < f.len() && (#[trigger] f[k]).tiles@ == t && f[k].depth == d;
    assert(f.push(x)[k] == f[k]);
}

proof fn lemma_frontier_remove(f: Seq<Board>, p: int, t: Seq<Tile>, d: int)
    requires
        0 <= p < f.len(),
        in_frontier(f, t, d),
    ensures
        in_frontier(f.remove(p), t, d) || (f[p].tiles@ == t && f[p].depth == d),
{
    let k = choose|k: int| 0 <= k < f.len() && (#[trigger] f[k]).tiles@ == t && f[k].depth == d;
    let g = f.remove(p);
    if k < p {
        assert(g[k] == f[k]);
    } else if k > p {
        assert(g[k - 1] == f[k]);
    }
}

/// Expand the node `leaf` by the move `m`: the child is kept where its tiles
/// are new, or were reached only deeper before.
fn expand_child<'a>(
    solved: &'a Board<'a>,
    Ghost(t0): Ghost<Seq<Tile>>,
    Ghost(best): Ghost<Option<Board<'a>>>,
    seen: &mut Vec<Board<'a>>,
    frontier: &mut Vec<Board<'a>>,
    bounds: &mut Vec<i32>,
    leaf: &Board<'a>,
    m: char,
)
    requires
        search_inv(
            leaf.n as int,
            solved,
            t0,
            old(seen)@,
            old(frontier)@,
            Some((leaf.tiles@, leaf.depth as int)),
            best,
        ),
        bounds_ok(leaf.n as int, old(frontier)@, old(bounds)@),
        node_ok(*leaf, leaf.n as int, solved, t0),
        has_state_within(old(seen)@, leaf.tiles@, leaf.depth as int),
        is_direction(m),
        in_bounds(leaf.n as int, leaf.blank_index as int, m),
        leaf.depth < MAX_DEPTH,
    ensures
        search_inv(
            leaf.n as int,
            solved,
            t0,
            final(seen)@,
            final(frontier)@,
            Some((leaf.tiles@, leaf.depth as int)),
            best,
        ),
        bounds_ok(leaf.n as int, final(frontier)@, final(bounds)@),
        refines(old(seen)@, final(seen)@),
        has_state_within(final(seen)@, step(leaf.n as int, leaf.tiles@, m), leaf.depth + 1),
        final(seen)@.len() > old(seen)@.len() || (final(seen)@.len() == old(seen)@.len()
            && depth_sum(final(seen)@) < depth_sum(old(seen)@)) || (final(seen)@ == old(seen)@
            && final(frontier)@ == old(frontier)@ && final(bounds)@ == old(bounds)@),
{
    let ghost n = leaf.n as int;
    let ghost pend = Some((leaf.tiles@, leaf.depth as int));
    let ghost seen0 = seen@;
    let ghost frontier0 = frontier@;
    let ghost bounds0 = bounds@;
    let ghost next = step(n, leaf.tiles@, m);
    proof {
        lemma_blank_pos(n, leaf.tiles@, leaf.blank_index as int);
        lemma_move_undo(n, leaf.tiles@, m);
        lemma_heuristic_bound(n, next);
    }
    let mut child = leaf.clone();
    child.move_blank_tile(m);
    child.depth = leaf.depth + 1;
    let found = find_seen(seen, &child);
    if let Some(j) = found {
        if seen[j].depth <= child.depth {
            return;
        }
    }
    child.path.append(direction_str(m));
    child.cost = child.get_cost();
    proof {
        lemma_manhattan_bound(n, next);
        assert((n * n) * (2 * (n - 1)) <= 1_000_000 * 1998) by (nonlinear_arith)
            requires
                1 <= n <= MAX_SIDE,
        ;
    }
    let bound = child.depth + child._manhattan_cost();
    proof {
        let p = leaf.path@;
        assert(child.path@.drop_last() =~= p);
        assert(child.path@.last() == m);
        assert(opposite(opposite(m)) == m);
        assert(node_ok(child, n, solved, t0));
    }
    let copy = child.clone();
    match found {
        Some(j) => {
            seen.set(j, copy);
        },
        None => {
            seen.push(copy);
        },
    }
    frontier.push(child);
    bounds.push(bound);
    proof {
        let s1 = seen@;
        let f1 = frontier@;
        let last = f1.len() - 1;
        assert(f1[last] == child);
        let cj: int = match found {
            Some(j) => j as int,
            None => s1.len() - 1,
        };
        assert(s1[cj].tiles@ == next && s1[cj].depth == child.depth);
        assert(refines(seen0, s1)) by {
            assert forall|j: int| 0 <= j < seen0.len() implies (#[trigger] s1[j]).tiles@
                == seen0[j].tiles@ && s1[j].depth <= seen0[j].depth by {
                if j != cj {
                    assert(s1[j] == seen0[j]);
                }
            }
        }
        match found {
            Some(j) => {
                assert(s1.len() == seen0.len());
                lemma_depth_sum_refines(seen0, s1);
            },
            None => {},
        }
        assert(has_state_within(s1, next, child.depth as int));
        // The frontier.
        assert forall|k: int| 0 <= k < f1.len() implies node_ok(#[trigger] f1[k], n, solved, t0)
            && has_state_within(s1, f1[k].tiles@, f1[k].depth as int) && parent_seen(
            f1[k],
            n,
            s1,
        ) by {
            if k < last {
                assert(f1[k] == frontier0[k]);
                lemma_within_refines(seen0, s1, f1[k].tiles@, f1[k].depth as int, f1[k].depth as int);
                if f1[k].depth > 0 {
                    lemma_within_refines(
                        seen0,
                        s1,
                        step(n, f1[k].tiles@, opposite(f1[k].last_direction)),
                        f1[k].depth - 1,
                        f1[k].depth - 1,
                    );
                }
            } else {
                lemma_within_refines(seen0, s1, leaf.tiles@, leaf.depth as int, leaf.depth as int);
            }
        }
        // The boards reached.
        assert forall|i: int| 0 <= i < s1.len() implies node_ok(#[trigger] s1[i], n, solved, t0) by {
            if i != cj {
                assert(s1[i] == seen0[i]);
            }
        }
        assert forall|i: int, j: int|
            0 <= i < s1.len() && 0 <= j < s1.len() && i != j implies (#[trigger] s1[i]).tiles@ != (
            #[trigger] s1[j]).tiles@ by {
            if i != cj && j != cj {
                assert(s1[i] == seen0[i] && s1[j] == seen0[j]);
            } else if i == cj {
                if j < seen0.len() {
                    assert(s1[j].tiles@ == seen0[j].tiles@);
                }
            } else {
                if i < seen0.len() {
                    assert(s1[i].tiles@ == seen0[i].tiles@);
                }
            }
        }
        lemma_within_refines(seen0, s1, t0, 0, 0);
        assert forall|i: int| 0 <= i < s1.len() implies pend == Some(
            ((#[trigger] s1[i]).tiles@, s1[i].depth as int),
        ) || in_frontier(f1, s1[i].tiles@, s1[i].depth as int) || expanded(
            n,
            s1,
            s1[i].tiles@,
            s1[i].depth as int,
        ) || candidate(best, s1[i].tiles@, s1[i].depth as int) by {
            if i == cj {
                assert(f1[last].tiles@ == s1[i].tiles@ && f1[last].depth == s1[i].depth);
            } else {
                assert(s1[i] == seen0[i]);
                if in_frontier(frontier0, s1[i].tiles@, s1[i].depth as int) {
                    lemma_frontier_push(frontier0, child, s1[i].tiles@, s1[i].depth as int);
                }
                if expanded(n, seen0, s1[i].tiles@, s1[i].depth as int) {
                    lemma_expanded_refines(n, seen0, s1, s1[i].tiles@, s1[i].depth as int);
                }
            }
        }
        if best is Some {
            lemma_within_refines(seen0, s1, solved_tiles(n), best->0.depth as int, best->0.depth as int);
        }
        assert forall|k: int| 0 <= k < f1.len() implies #[trigger] bounds@[k] == f1[k].depth + manhattan(
            n,
            f1[k].tiles@,
        ) by {
            if k < last {
                assert(f1[k] == frontier0[k]);
                assert(bounds@[k] == bounds0[k]);
            }
        }
    }
}

/// Where every board waiting in the frontier, and the solved board found so
/// far, lie `g` moves or more away through them, every board on a solution
/// shorter than `g` has been reached no deeper than along it.
proof fn lemma_reached(
    n: int,
    solved: &Board,
    t0: Seq<Tile>,
    seen: Seq<Board>,
    frontier: Seq<Board>,
    bounds: Seq<i32>,
    best: Option<Board>,
    moves: Seq<char>,
    g: int,
    j: int,
)
    requires
        1 <= n <= MAX_SIDE,
        valid_tiles(n, t0),
        search_inv(n, solved, t0, seen, frontier, None, best),
        bounds_ok(n, frontier, bounds),
        forall|k: int| 0 <= k < bounds.len() ==> #[trigger] bounds[k] >= g,
        best is Some ==> best->0.depth >= g,
        solves(n, t0, moves),
        moves.len() < g <= MAX_DEPTH + 1,
        0 <= j <= moves.len(),
    ensures
        apply_moves(n, t0, moves.take(j)) is Some,
        has_state_within(seen, apply_moves(n, t0, moves.take(j))->0, j),
    decreases j,
{
    lemma_side(n);
    lemma_apply_prefix(n, t0, moves, j);
    if j == 0 {
        assert(moves.take(0) =~= Seq::<char>::empty());
    } else {
        lemma_reached(n, solved, t0, seen, frontier, bounds, best, moves, g, j - 1);
        let u = apply_moves(n, t0, moves.take(j - 1))->0;
        let m = moves[j - 1];
        assert(moves.take(j).drop_last() =~= moves.take(j - 1));
        assert(moves.take(j).last() == m);
        let i = choose|i: int|
            0 <= i < seen.len() && (#[trigger] seen[i]).tiles@ == u && seen[i].depth <= j - 1;
        lemma_manhattan_to_go(n, t0, moves, j - 1);
        if in_frontier(frontier, u, seen[i].depth as int) {
            let k = choose|k: int|
                0 <= k < frontier.len() && (#[trigger] frontier[k]).tiles@ == u && frontier[k].depth
                    == seen[i].depth;
            assert(bounds[k] >= g);
        }
        assert(!candidate(best, u, seen[i].depth as int));
        assert(expanded(n, seen, u, seen[i].depth as int));
        assert(has_state_within(seen, step(n, u, m), seen[i].depth + 1));
        lemma_within_refines(seen, seen, step(n, u, m), seen[i].depth + 1, j);
    }
}

/// No solution shorter than `g` exists once every board waiting in the
/// frontier, and the solved board found so far, are `g` moves or more away
/// through them.
proof fn lemma_no_shorter(
    n: int,
    solved: &Board,
    t0: Seq<Tile>,
    seen: Seq<Board>,
    frontier: Seq<Board>,
    bounds: Seq<i32>,
    best: Option<Board>,
    moves: Seq<char>,
    g: int,
)
    requires
        1 <= n <= MAX_SIDE,
        valid_tiles(n, t0),
        search_inv(n, solved, t0, seen, frontier, None, best),
        bounds_ok(n, frontier, bounds),
        forall|k: int| 0 <= k < bounds.len() ==> #[trigger] bounds[k] >= g,
        best is Some ==> best->0.depth >= g,
        moves.len() < g <= MAX_DEPTH + 1,
    ensures
        !solves(n, t0, moves),
{
    if solves(n, t0, moves) {
        lemma_side(n);
        lemma_reached(n, solved, t0, seen, frontier, bounds, best, moves, g, moves.len() as int);
        assert(moves.take(moves.len() as int) =~= moves);
        let s = solved_tiles(n);
        let i = choose|i: int|
            0 <= i < seen.len() && (#[trigger] seen[i]).tiles@ == s && seen[i].depth <= moves.len();
        lemma_solved_valid(n);
        lemma_manhattan_zero(n, s);
        if in_frontier(frontier, s, seen[i].depth as int) {
            let k = choose|k: int|
                0 <= k < frontier.len() && (#[trigger] frontier[k]).tiles@ == s && frontier[k].depth
                    == seen[i].depth;
            assert(bounds[k] >= g);
        }
        assert(!candidate(best, s, seen[i].depth as int));
        assert(!expanded(n, seen, s, seen[i].depth as int));
    }
}

/// Solve the puzzle of side `n` that starts from `tiles`: the fewest moves
/// of the blank, one character each, that lead to the solved board. The
/// search expands the frontier board of lowest cost first and keeps a board
/// only where its tiles are new or reached less deep than before. A solved
/// board it takes out is returned once no board waiting in the frontier can
/// lead to a shorter solution: its depth plus its Manhattan distance, a
/// lower bound on the moves through it, is no less. `None` where no sequence
/// of at most `MAX_DEPTH` moves solves the puzzle.
pub fn solve_main(n: i32, tiles: Vec<Tile>) -> (r: Option<String>)
    requires
        1 <= n <= MAX_SIDE,
        valid_tiles(n as int, tiles@),
    ensures
        r is Some ==> solves(n as int, tiles@, r->0@),
        r is Some ==> forall|m: Seq<char>| #[trigger]
            solves(n as int, tiles@, m) ==> r->0@.len() <= m.len(),
        r is Some ==> simple_path(n as int, tiles@, r->0@),
        r is None ==> forall|moves: Seq<char>|
            moves.len() <= MAX_DEPTH ==> !#[trigger] solves(n as int, tiles@, moves),
{
    let ghost t0 = tiles@;
    let ghost side = n as int;
    let solved_board = Board::new(n, None, -1, Vec::new());
    proof {
        lemma_heuristic_bound(side, t0);
        lemma_side(side);
        lemma_manhattan_bound(side, t0);
        assert((side * side) * (2 * (side - 1)) <= 1_000_000 * 1998) by (nonlinear_arith)
            requires
                1 <= side <= MAX_SIDE,
        ;
    }
    let root = Board::new(n, Some(&solved_board), 0, tiles);
    let mut seen: Vec<Board> = Vec::new();
    let mut frontier: Vec<Board> = Vec::new();
    let mut bounds: Vec<i32> = Vec::new();
    let mut best: Option<Board> = None;
    seen.push(root.clone());
    bounds.push(root._manhattan_cost());
    frontier.push(root);
    let ghost bound = pow(side * side + 1, (side * side) as nat);
    proof {
        assert(seen@[0].path@ =~= Seq::<char>::empty());
        assert(node_ok(seen@[0], side, &solved_board, t0));
        assert(has_state_within(seen@, t0, 0));
        assert(frontier@[0].tiles@ == seen@[0].tiles@);
        assert(in_frontier(frontier@, seen@[0].tiles@, 0));
        lemma_pow_positive(side * side + 1, (side * side) as nat);
        assert(seen@.drop_last() =~= Seq::<Board>::empty());
        assert(depth_sum(Seq::<Board>::empty()) == 0);
        assert(seen@.last().depth == 0);
        assert(depth_sum(seen@) == 0);
    }
    let mut done = false;
    while frontier.len() > 0 && !done
        invariant
            side == n,
            t0 == tiles@,
            1 <= side <= MAX_SIDE,
            valid_tiles(side, t0),
            solved_board.n == n,
            solved_board.tiles@ == solved_tiles(side),
            bound == pow(side * side + 1, (side * side) as nat),
            seen@.len() <= bound,
            depth_sum(seen@) >= 0,
            search_inv(side, &solved_board, t0, seen@, frontier@, None, best),
            bounds_ok(side, frontier@, bounds@),
            done ==> best is Some && forall|k: int|
                0 <= k < bounds@.len() ==> #[trigger] bounds@[k] >= best->0.depth,
        decreases bound - seen@.len(), depth_sum(seen@), frontier@.len(),
    {
        let ghost seen0 = seen@;
        let ghost frontier0 = frontier@;
        let ghost bounds0 = bounds@;
        let p = lowest_cost_index(&frontier);
        let leaf = frontier.remove(p);
        bounds.remove(p);
        let ghost pend = Some((leaf.tiles@, leaf.depth as int));
        proof {
            assert(leaf == frontier0[p as int]);
            assert(node_ok(leaf, side, &solved_board, t0));
            assert(has_state_within(seen@, leaf.tiles@, leaf.depth as int));
            assert forall|k: int| 0 <= k < frontier@.len() implies node_ok(
                #[trigger] frontier@[k],
                side,
                &solved_board,
                t0,
            ) && has_state_within(seen@, frontier@[k].tiles@, frontier@[k].depth as int) && parent_seen(
                frontier@[k],
                side,
                seen@,
            ) by {
                if k < p {
                    assert(frontier@[k] == frontier0[k]);
                } else {
                    assert(frontier@[k] == frontier0[k + 1]);
                }
            }
            assert forall|k: int| 0 <= k < frontier@.len() implies #[trigger] bounds@[k]
                == frontier@[k].depth + manhattan(side, frontier@[k].tiles@) by {
                if k < p {
                    assert(frontier@[k] == frontier0[k] && bounds@[k] == bounds0[k]);
                } else {
                    assert(frontier@[k] == frontier0[k + 1] && bounds@[k] == bounds0[k + 1]);
                }
            }
            assert forall|i: int| 0 <= i < seen@.len() implies pend == Some(
                ((#[trigger] seen@[i]).tiles@, seen@[i].depth as int),
            ) || in_frontier(frontier@, seen@[i].tiles@, seen@[i].depth as int) || expanded(
                side,
                seen@,
                seen@[i].tiles@,
                seen@[i].depth as int,
            ) || candidate(best, seen@[i].tiles@, seen@[i].depth as int) by {
                if in_frontier(frontier0, seen@[i].tiles@, seen@[i].depth as int) {
                    lemma_frontier_remove(frontier0, p as int, seen@[i].tiles@, seen@[i].depth as int);
                }
            }
            assert(search_inv(side, &solved_board, t0, seen@, frontier@, pend, best));
        }
        let ghost frontier1 = frontier@;
        if leaf.is_solved() {
            let ghost old_best = best;
            let better = match &best {
                Some(b) => leaf.depth < b.depth,
                None => true,
            };
            if better {
                best = Some(leaf);
            }
            proof {
                let s = solved_tiles(side);
                // The entry of the solved board is the only one with its tiles.
                assert forall|i: int| 0 <= i < seen@.len() implies in_frontier(
                    frontier@,
                    (#[trigger] seen@[i]).tiles@,
                    seen@[i].depth as int,
                ) || expanded(side, seen@, seen@[i].tiles@, seen@[i].depth as int) || candidate(
                    best,
                    seen@[i].tiles@,
                    seen@[i].depth as int,
                ) by {
                    if seen@[i].tiles@ == s {
                        let e = choose|e: int|
                            0 <= e < seen@.len() && (#[trigger] seen@[e]).tiles@ == s
                                && seen@[e].depth <= leaf.depth;
                        assert(e == i);
                        if old_best is Some {
                            let e2 = choose|e: int|
                                0 <= e < seen@.len() && (#[trigger] seen@[e]).tiles@ == s
                                    && seen@[e].depth <= old_best->0.depth;
                            assert(e2 == i);
                        }
                    }
                }
            }
        } else if leaf.depth < MAX_DEPTH {
            let moves = leaf.get_moves();
            let mut k: usize = 0;
            while k < moves.len()
                invariant
                    side == n,
                    leaf.n == n,
                    1 <= side <= MAX_SIDE,
                    node_ok(leaf, side, &solved_board, t0),
                    has_state_within(seen0, leaf.tiles@, leaf.depth as int),
                    pend == Some((leaf.tiles@, leaf.depth as int)),
                    leaf.depth < MAX_DEPTH,
                    moves@ == allowed_moves(side, leaf.blank_index as int, leaf.last_direction),
                    0 <= k <= moves@.len(),
                    search_inv(side, &solved_board, t0, seen@, frontier@, pend, best),
                    bounds_ok(side, frontier@, bounds@),
                    refines(seen0, seen@),
                    forall|j: int|
                        0 <= j < k ==> has_state_within(
                            seen@,
                            step(side, leaf.tiles@, #[trigger] moves@[j]),
                            leaf.depth + 1,
                        ),
                    seen@.len() > seen0.len() || (seen@.len() == seen0.len() && depth_sum(seen@)
                        < depth_sum(seen0)) || (seen@ == seen0 && frontier@ == frontier1),
                decreases moves@.len() - k,
            {
                proof {
                    if side >= 2 {
                        lemma_allowed_moves(side, leaf.blank_index as int, leaf.last_direction);
                    }
                    lemma_within_refines(seen0, seen@, leaf.tiles@, leaf.depth as int, leaf.depth as int);
                }
                let ghost seen_before = seen@;
                expand_child(
                    &solved_board,
                    Ghost(t0),
                    Ghost(best),
                    &mut seen,
                    &mut frontier,
                    &mut bounds,
                    &leaf,
                    moves[k],
                );
                proof {
                    assert forall|j: int| 0 <= j < k + 1 implies has_state_within(
                        seen@,
                        step(side, leaf.tiles@, #[trigger] moves@[j]),
                        leaf.depth + 1,
                    ) by {
                        if j < k {
                            lemma_within_refines(
                                seen_before,
                                seen@,
                                step(side, leaf.tiles@, moves@[j]),
                                leaf.depth + 1,
                                leaf.depth + 1,
                            );
                        }
                    }
                    assert(refines(seen0, seen@)) by {
                        assert forall|j: int| 0 <= j < seen0.len() implies (#[trigger] seen@[j]).tiles@
                            == seen0[j].tiles@ && seen@[j].depth <= seen0[j].depth by {
                            assert(seen_before[j].tiles@ == seen0[j].tiles@);
                        }
                    }
                    if seen@.len() == seen0.len() {
                        lemma_depth_sum_refines(seen0, seen_before);
                    }
                }
                k = k + 1;
            }
            proof {
                // Every move from the leaf has been made, but the one straight back,
                // which leads to where the leaf came from.
                lemma_blank_pos(side, leaf.tiles@, leaf.blank_index as int);
                assert forall|m: char|
                    is_direction(m) && in_bounds(side, blank_pos(leaf.tiles@), m) && leaf.depth
                        < MAX_DEPTH implies has_state_within(
                    seen@,
                    #[trigger] step(side, leaf.tiles@, m),
                    leaf.depth + 1,
                ) by {
                    if side == 1 {
                        assert(leaf.blank_index == 0);
                        assert(false);
                    }
                    lemma_allowed_moves(side, leaf.blank_index as int, leaf.last_direction);
                    if moves@.contains(m) {
                        let j = choose|j: int| 0 <= j < moves@.len() && moves@[j] == m;
                        assert(has_state_within(seen@, step(side, leaf.tiles@, moves@[j]), leaf.depth + 1));
                    } else {
                        assert(leaf.last_direction == opposite(m));
                        assert(opposite(opposite(m)) == m);
                        assert(leaf.depth > 0);
                        assert(parent_seen(frontier0[p as int], side, seen0));
                        lemma_within_refines(
                            seen0,
                            seen@,
                            step(side, leaf.tiles@, m),
                            leaf.depth - 1,
                            leaf.depth + 1,
                        );
                    }
                }
                assert(expanded(side, seen@, leaf.tiles@, leaf.depth as int));
            }
        } else {
            proof {
                assert(expanded(side, seen@, leaf.tiles@, leaf.depth as int));
            }
        }
        proof {
            assert forall|i: int| 0 <= i < seen@.len() implies in_frontier(
                frontier@,
                (#[trigger] seen@[i]).tiles@,
                seen@[i].depth as int,
            ) || expanded(side, seen@, seen@[i].tiles@, seen@[i].depth as int) || candidate(
                best,
                seen@[i].tiles@,
                seen@[i].depth as int,
            ) by {}
            assert(search_inv(side, &solved_board, t0, seen@, frontier@, None, best));
            lemma_distinct_boards_bound(side, seen@.map_values(|b: Board| b.tiles@));
            lemma_depth_sum_nonneg(seen@);
        }
        done = match &best {
            Some(b) => all_at_least(&bounds, b.depth),
            None => false,
        };
    }
    match best {
        Some(b) => {
            proof {
                let g = b.depth as int;
                assert forall|m: Seq<char>| #[trigger] solves(side, t0, m) implies b.path@.len() <= m.len() by {
                    if m.len() < g {
                        lemma_no_shorter(side, &solved_board, t0, seen@, frontier@, bounds@, best, m, g);
                    }
                }
                lemma_shortest_is_simple(side, t0, b.path@);
            }
            Some(b.path)
        },
        None => {
            proof {
                assert forall|moves: Seq<char>| moves.len() <= MAX_DEPTH implies !#[trigger] solves(
                    side,
                    t0,
                    moves,
                ) by {
                    lemma_no_shorter(
                        side,
                        &solved_board,
                        t0,
                        seen@,
                        frontier@,
                        bounds@,
                        best,
                        moves,
                        MAX_DEPTH + 1,
                    );
                }
            }
            None
        },
    }
}

} // verus!

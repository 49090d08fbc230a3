//! There are finitely many boards of a given side: distinct valid boards
//! are at most `(n * n + 1)` to the power `n * n` in number.
use vstd::arithmetic::power::{lemma_pow_positive, pow};
use vstd::prelude::*;
use vstd::set_lib::{lemma_int_range, lemma_len_subset, set_int_range};

use crate::model::valid_tiles;
use crate::tile::Tile;

verus! {

/// A tile as a digit: its symbol plus one, so the blank is 0.
pub open spec fn digit(x: Tile) -> int {
    x.symbol + 1
}

/// The tiles as a number, first tile lowest, in base `base`.
pub open spec fn encode(t: Seq<Tile>, base: int) -> int
    decreases t.len(),
{
    if t.len() == 0 {
        0
    } else {
        digit(t[0]) + base * encode(t.drop_first(), base)
    }
}

pub open spec fn digits_below(t: Seq<Tile>, base: int) -> bool {
    forall|i: int| 0 <= i < t.len() ==> 0 <= digit(#[trigger] t[i]) < base
}

proof fn lemma_encode_range(t: Seq<Tile>, base: int)
    requires
        base >= 1,
        digits_below(t, base),
    ensures
        0 <= encode(t, base) < pow(base, t.len()),
    decreases t.len(),
{
    if t.len() == 0 {
        reveal(pow);
    } else {
        let r = t.drop_first();
        assert(digits_below(r, base)) by {
            assert forall|i: int| 0 <= i < r.len() implies 0 <= digit(#[trigger] r[i]) < base by {
                assert(r[i] == t[i + 1]);
            }
        }
        lemma_encode_range(r, base);
        let e = encode(r, base);
        let p = pow(base, r.len());
        assert(digit(t[0]) < base);
        assert(pow(base, t.len()) == base * p) by {
            reveal(pow);
        }
        assert(0 <= digit(t[0]) + base * e < base * p) by (nonlinear_arith)
            requires
                0 <= digit(t[0]) < base,
                0 <= e < p,
                base >= 1,
        ;
    }
}

proof fn lemma_encode_injective(a: Seq<Tile>, b: Seq<Tile>, base: int)
    requires
        base >= 1,
        a.len() == b.len(),
        digits_below(a, base),
        digits_below(b, base),
        encode(a, base) == encode(b, base),
    ensures
        a == b,
    decreases a.len(),
{
    if a.len() > 0 {
        let ra = a.drop_first();
        let rb = b.drop_first();
        assert(digits_below(ra, base)) by {
            assert forall|i: int| 0 <= i < ra.len() implies 0 <= digit(#[trigger] ra[i]) < base by {
                assert(ra[i] == a[i + 1]);
            }
        }
        assert(digits_below(rb, base)) by {
            assert forall|i: int| 0 <= i < rb.len() implies 0 <= digit(#[trigger] rb[i]) < base by {
                assert(rb[i] == b[i + 1]);
            }
        }
        lemma_encode_range(ra, base);
        lemma_encode_range(rb, base);
        let x = digit(a[0]);
        let y = digit(b[0]);
        let ea = encode(ra, base);
        let eb = encode(rb, base);
        assert(x < base && y < base);
        vstd::arithmetic::div_mod::lemma_fundamental_div_mod_converse(x + base * ea, base, ea, x);
        vstd::arithmetic::div_mod::lemma_fundamental_div_mod_converse(y + base * eb, base, eb, y);
        assert(x == y && ea == eb);
        lemma_encode_injective(ra, rb, base);
        assert(a[0] == b[0]);
        assert(a =~= seq![a[0]] + ra);
        assert(b =~= seq![b[0]] + rb);
    }
}

/// Boards whose tiles are valid and pairwise distinct are at most
/// `(n * n + 1)` to the power `n * n` in number.
pub proof fn lemma_distinct_boards_bound(n: int, boards: Seq<Seq<Tile>>)
    requires
        1 <= n,
        forall|i: int| 0 <= i < boards.len() ==> valid_tiles(n, #[trigger] boards[i]),
        forall|i: int, j: int|
            0 <= i < boards.len() && 0 <= j < boards.len() && i != j ==> #[trigger] boards[i]
                != #[trigger] boards[j],
    ensures
        boards.len() <= pow(n * n + 1, (n * n) as nat),
{
    let base = n * n + 1;
    assert(n * n >= 1) by (nonlinear_arith)
        requires
            1 <= n,
    ;
    let codes = boards.map_values(|t: Seq<Tile>| encode(t, base));
    let top = pow(base, (n * n) as nat);
    lemma_pow_positive(base, (n * n) as nat);
    assert forall|i: int| 0 <= i < boards.len() implies digits_below(#[trigger] boards[i], base) by {
        let t = boards[i];
        assert forall|k: int| 0 <= k < t.len() implies 0 <= digit(#[trigger] t[k]) < base by {}
    }
    assert forall|i: int| 0 <= i < codes.len() implies 0 <= #[trigger] codes[i] < top by {
        lemma_encode_range(boards[i], base);
    }
    assert(codes.no_duplicates()) by {
        assert forall|i: int, j: int|
            0 <= i < codes.len() && 0 <= j < codes.len() && i != j implies codes[i] != codes[j] by {
            if codes[i] == codes[j] {
                lemma_encode_injective(boards[i], boards[j], base);
            }
        }
    }
    codes.unique_seq_to_set();
    lemma_int_range(0, top);
    assert(codes.to_set().subset_of(set_int_range(0, top)));
    lemma_len_subset(codes.to_set(), set_int_range(0, top));
}

} // verus!

//! Reading a puzzle from its text form: the side length, then the symbols
//! of the tiles in row-major order, all separated by commas (`3,8,4,...`).
use vstd::prelude::*;
use vstd::string::StrSliceExecFns;

use crate::model::{valid_tiles, MAX_SIDE};
use crate::tile::{Tile, BLANK_TILE};

verus! {

/// The value of a decimal digit character.
pub open spec fn char_digit(c: char) -> Option<int> {
    if c == '0' {
        Some(0)
    } else if c == '1' {
        Some(1)
    } else if c == '2' {
        Some(2)
    } else if c == '3' {
        Some(3)
    } else if c == '4' {
        Some(4)
    } else if c == '5' {
        Some(5)
    } else if c == '6' {
        Some(6)
    } else if c == '7' {
        Some(7)
    } else if c == '8' {
        Some(8)
    } else if c == '9' {
        Some(9)
    } else {
        None
    }
}

pub open spec fn all_digits(s: Seq<char>) -> bool {
    forall|i: int| 0 <= i < s.len() ==> (#[trigger] char_digit(s[i])) is Some
}

/// The number that the decimal digits `s` write.
pub open spec fn digits_value(s: Seq<char>) -> int
    decreases s.len(),
{
    if s.len() == 0 {
        0
    } else {
        digits_value(s.drop_last()) * 10 + char_digit(s.last())->0
    }
}

/// The integer a field writes: an optional sign, then one digit or more.
pub open spec fn field_value(f: Seq<char>) -> Option<int> {
    if f.len() >= 1 && (f[0] == '-' || f[0] == '+') {
        let d = f.drop_first();
        if d.len() >= 1 && all_digits(d) {
            Some(if f[0] == '-' { -digits_value(d) } else { digits_value(d) })
        } else {
            None
        }
    } else if f.len() >= 1 && all_digits(f) {
        Some(digits_value(f))
    } else {
        None
    }
}

/// The field as an `i32`, where it writes one in range.
pub open spec fn field_i32(f: Seq<char>) -> Option<i32> {
    match field_value(f) {
        Some(v) => if i32::MIN <= v <= i32::MAX {
            Some(v as i32)
        } else {
            None
        },
        None => None,
    }
}

/// The text cut at each comma.
pub open spec fn split_fields(s: Seq<char>) -> Seq<Seq<char>>
    decreases s.len(),
{
    if s.len() == 0 {
        seq![Seq::empty()]
    } else {
        let before = split_fields(s.drop_last());
        if s.last() == ',' {
            before.push(Seq::empty())
        } else {
            before.update(before.len() - 1, before.last().push(s.last()))
        }
    }
}

/// The integers of all fields, where each field writes one.
pub open spec fn field_values(fields: Seq<Seq<char>>) -> Option<Seq<i32>> {
    if forall|i: int| 0 <= i < fields.len() ==> (#[trigger] field_i32(fields[i])) is Some {
        Some(fields.map_values(|f: Seq<char>| field_i32(f)->0))
    } else {
        None
    }
}

/// The tiles with the symbols `v`.
pub open spec fn tiles_of(v: Seq<i32>) -> Seq<Tile> {
    v.map_values(|s: i32| Tile { symbol: s })
}

proof fn lemma_split_nonempty(s: Seq<char>)
    ensures
        split_fields(s).len() >= 1,
    decreases s.len(),
{
    if s.len() > 0 {
        lemma_split_nonempty(s.drop_last());
    }
}

fn digit_of(c: char) -> (r: Option<i64>)
    ensures
        r is Some <==> char_digit(c) is Some,
        r is Some ==> r->0 == char_digit(c)->0,
{
    if c == '0' {
        Some(0)
    } else if c == '1' {
        Some(1)
    } else if c == '2' {
        Some(2)
    } else if c == '3' {
        Some(3)
    } else if c == '4' {
        Some(4)
    } else if c == '5' {
        Some(5)
    } else if c == '6' {
        Some(6)
    } else if c == '7' {
        Some(7)
    } else if c == '8' {
        Some(8)
    } else if c == '9' {
        Some(9)
    } else {
        None
    }
}

/// A field read so far: whether it starts with a sign and which, how many
/// characters follow the sign, their value as digits (capped just past the
/// `i32` range), and whether one of them is no digit.
struct FieldReader {
    signed: bool,
    negative: bool,
    digits: u64,
    value: i64,
    bad: bool,
}

spec fn reader_ok(r: FieldReader, f: Seq<char>) -> bool {
    let d = if r.signed { f.drop_first() } else { f };
    &&& r.signed <==> (f.len() >= 1 && (f[0] == '-' || f[0] == '+'))
    &&& r.negative <==> (r.signed && f[0] == '-')
    &&& r.digits == d.len()
    &&& r.bad <==> !all_digits(d)
    &&& !r.bad ==> (if digits_value(d) <= 2147483648 {
        r.value == digits_value(d)
    } else {
        r.value == 2147483649
    })
    &&& 0 <= r.value <= 2147483649
}

fn reader_new() -> (r: FieldReader)
    ensures
        reader_ok(r, Seq::empty()),
{
    FieldReader { signed: false, negative: false, digits: 0, value: 0, bad: false }
}

proof fn lemma_digits_value_nonneg(s: Seq<char>)
    requires
        all_digits(s),
    ensures
        digits_value(s) >= 0,
    decreases s.len(),
{
    if s.len() > 0 {
        let p = s.drop_last();
        assert(all_digits(p)) by {
            assert forall|i: int| 0 <= i < p.len() implies (#[trigger] char_digit(p[i])) is Some by {
                assert(p[i] == s[i]);
            }
        }
        lemma_digits_value_nonneg(p);
        assert(char_digit(s[s.len() - 1]) is Some);
    }
}

fn reader_push(r: FieldReader, c: char, Ghost(f): Ghost<Seq<char>>) -> (out: FieldReader)
    requires
        reader_ok(r, f),
        c != ',',
        f.len() < u64::MAX,
    ensures
        reader_ok(out, f.push(c)),
{
    let g = Ghost(f.push(c));
    if !r.signed && r.digits == 0 && (c == '-' || c == '+') {
        proof {
            assert(g@.drop_first() =~= Seq::<char>::empty());
        }
        return FieldReader { signed: true, negative: c == '-', digits: 0, value: 0, bad: false };
    }
    let ghost d = if r.signed { f.drop_first() } else { f };
    let ghost d2 = if r.signed { g@.drop_first() } else { g@ };
    proof {
        if r.signed {
            assert(d2 =~= d.push(c));
        } else {
            assert(d2 =~= d.push(c));
        }
        assert(d2.drop_last() =~= d);
        assert(d2.last() == c);
    }
    let digit = digit_of(c);
    match digit {
        None => {
            proof {
                assert(char_digit(d2[d2.len() - 1]) is None);
            }
            FieldReader { signed: r.signed, negative: r.negative, digits: r.digits + 1, value: r.value, bad: true }
        },
        Some(v) => {
            proof {
                if !r.bad {
                    assert(all_digits(d2)) by {
                        assert forall|i: int| 0 <= i < d2.len() implies (#[trigger] char_digit(d2[i])) is Some by {
                            if i < d.len() {
                                assert(d2[i] == d[i]);
                            }
                        }
                    }
                    lemma_digits_value_nonneg(d);
                } else {
                    assert(!all_digits(d2)) by {
                        let i = choose|i: int| 0 <= i < d.len() && !((#[trigger] char_digit(d[i])) is Some);
                        assert(d2[i] == d[i]);
                    }
                }
            }
            let value = if r.value <= 2147483648 {
                let next = r.value * 10 + v;
                if next <= 2147483648 {
                    next
                } else {
                    2147483649
                }
            } else {
                2147483649
            };
            FieldReader { signed: r.signed, negative: r.negative, digits: r.digits + 1, value, bad: r.bad }
        },
    }
}

/// The `i32` that a finished field writes, if any.
fn reader_finish(r: &FieldReader, Ghost(f): Ghost<Seq<char>>) -> (out: Option<i32>)
    requires
        reader_ok(*r, f),
    ensures
        out == field_i32(f),
{
    let ghost d = if r.signed { f.drop_first() } else { f };
    if r.bad || r.digits == 0 {
        proof {
            if r.digits == 0 && !r.bad {
                assert(d.len() == 0);
            }
        }
        return None;
    }
    proof {
        lemma_digits_value_nonneg(d);
    }
    if r.negative {
        if r.value <= 2147483648 {
            Some((-r.value) as i32)
        } else {
            None
        }
    } else {
        if r.value <= 2147483647 {
            Some(r.value as i32)
        } else {
            None
        }
    }
}

/// Read a puzzle from text: the side length, then the tile symbols, all
/// written as decimal integers and separated by commas. `None` where a
/// field is not such an integer in `i32` range.
pub fn parse_board_info(board_info: &str) -> (r: Option<(i32, Vec<Tile>)>)
    ensures
        ({
            let fields = split_fields(board_info@);
            match field_values(fields) {
                Some(v) => match r {
                    Some((side, tiles)) => side == v[0] && tiles@ == tiles_of(v.drop_first()),
                    None => false,
                },
                None => r is None,
            }
        }),
{
    let ghost s = board_info@;
    let len = board_info.unicode_len();
    let mut values: Vec<i32> = Vec::new();
    let mut all_ok = true;
    let mut reader = reader_new();
    let ghost mut field: Seq<char> = Seq::empty();
    let mut i: usize = 0;
    proof {
        lemma_split_nonempty(s);
    }
    while i < len
        invariant
            len == s.len(),
            s == board_info@,
            0 <= i <= len,
            split_fields(s.take(i as int)).len() >= 1,
            field == split_fields(s.take(i as int)).last(),
            reader_ok(reader, field),
            field.len() <= i,
            all_ok ==> values@.len() == split_fields(s.take(i as int)).len() - 1,
            all_ok ==> forall|k: int|
                0 <= k < values@.len() ==> field_i32(split_fields(s.take(i as int))[k]) == Some(
                    #[trigger] values@[k],
                ),
            !all_ok ==> exists|k: int|
                0 <= k < split_fields(s.take(i as int)).len() - 1 && (#[trigger] field_i32(
                    split_fields(s.take(i as int))[k],
                )) is None,
        decreases len - i,
    {
        let c = board_info.get_char(i);
        let ghost before = split_fields(s.take(i as int));
        let ghost after = split_fields(s.take(i + 1));
        proof {
            assert(s.take(i + 1).drop_last() =~= s.take(i as int));
            assert(s.take(i + 1).last() == c);
            lemma_split_nonempty(s.take(i + 1));
        }
        if c == ',' {
            let done = reader_finish(&reader, Ghost(field));
            match done {
                Some(v) => {
                    if all_ok {
                        values.push(v);
                    }
                },
                None => {
                    all_ok = false;
                },
            }
            reader = reader_new();
            proof {
                assert(after == before.push(Seq::empty()));
                if !all_ok {
                    if done is None {
                        assert(field_i32(after[before.len() - 1]) is None);
                    } else {
                        let k = choose|k: int|
                            0 <= k < before.len() - 1 && (#[trigger] field_i32(before[k])) is None;
                        assert(after[k] == before[k]);
                    }
                } else {
                    assert forall|k: int| 0 <= k < values@.len() implies field_i32(after[k]) == Some(
                        #[trigger] values@[k],
                    ) by {
                        assert(after[k] == before[k]);
                    }
                }
                field = Seq::empty();
            }
        } else {
            reader = reader_push(reader, c, Ghost(field));
            proof {
                let last = before.len() - 1;
                assert(after == before.update(last, before.last().push(c)));
                if !all_ok {
                    let k = choose|k: int|
                        0 <= k < before.len() - 1 && (#[trigger] field_i32(before[k])) is None;
                    assert(after[k] == before[k]);
                } else {
                    assert forall|k: int| 0 <= k < values@.len() implies field_i32(after[k]) == Some(
                        #[trigger] values@[k],
                    ) by {
                        assert(after[k] == before[k]);
                    }
                }
                field = field.push(c);
            }
        }
        i = i + 1;
    }
    proof {
        assert(s.take(len as int) =~= s);
    }
    let fields = Ghost(split_fields(s));
    let last = reader_finish(&reader, Ghost(field));
    match last {
        Some(v) => {
            if !all_ok {
                proof {
                    let k = choose|k: int|
                        0 <= k < fields@.len() - 1 && (#[trigger] field_i32(fields@[k])) is None;
                }
                return None;
            }
            values.push(v);
        },
        None => {
            return None;
        },
    }
    let ghost vs = fields@.map_values(|f: Seq<char>| field_i32(f)->0);
    proof {
        assert forall|k: int| 0 <= k < fields@.len() implies (#[trigger] field_i32(fields@[k])) is Some by {
            if k < fields@.len() - 1 {
                assert(field_i32(fields@[k]) == Some(values@[k]));
            }
        }
        assert(values@ =~= vs);
    }
    let n = values[0];
    let mut tiles: Vec<Tile> = Vec::new();
    let mut k: usize = 1;
    while k < values.len()
        invariant
            1 <= k <= values@.len(),
            tiles@ =~= tiles_of(values@.subrange(1, k as int)),
        decreases values@.len() - k,
    {
        tiles.push(Tile::new(values[k]));
        k = k + 1;
    }
    proof {
        assert(values@.subrange(1, values@.len() as int) =~= values@.drop_first());
    }
    Some((n, tiles))
}

/// Whether `n` and `tiles` make a board this library can work on: a side
/// from 1 to `MAX_SIDE`, and a permutation of its solved tiles.
pub fn valid_board(n: i32, tiles: &Vec<Tile>) -> (r: bool)
    ensures
        r == (1 <= n <= MAX_SIDE && valid_tiles(n as int, tiles@)),
{
    if n < 1 || n > MAX_SIDE {
        return false;
    }
    proof {
        crate::model::lemma_side(n as int);
    }
    let n2 = n * n;
    if tiles.len() != n2 as usize {
        return false;
    }
    let ghost t = tiles@;
    // `used[s + 1]` tells whether symbol `s` has been met.
    let mut used: Vec<bool> = Vec::new();
    let mut k: i32 = 0;
    while k <= n2
        invariant
            0 <= k <= n2 + 1,
            n2 == n * n,
            n2 <= MAX_SIDE * MAX_SIDE,
            used@.len() == k,
            forall|j: int| 0 <= j < k ==> !(#[trigger] used@[j]),
        decreases n2 + 1 - k,
    {
        used.push(false);
        k = k + 1;
    }
    let mut i: usize = 0;
    while i < tiles.len()
        invariant
            t == tiles@,
            t.len() == n2,
            n2 == n * n,
            1 <= n <= MAX_SIDE,
            n2 <= MAX_SIDE * MAX_SIDE,
            used@.len() == n2 + 1,
            0 <= i <= t.len(),
            forall|j: int| 0 <= j < i ==> (#[trigger] t[j]).symbol == BLANK_TILE || 1 <= t[j].symbol < n2,
            forall|a: int, b: int| 0 <= a < i && 0 <= b < i && a != b ==> #[trigger] t[a] != #[trigger] t[b],
            forall|v: int| 0 <= v <= n2 ==> (#[trigger] used@[v] <==> exists|j: int| 0 <= j < i && t[j].symbol + 1 == v),
        decreases t.len() - i,
    {
        let s = tiles[i].symbol;
        if !(s == BLANK_TILE || (1 <= s && s < n2)) {
            return false;
        }
        let slot = (s + 1) as usize;
        if used[slot] {
            proof {
                let j = choose|j: int| 0 <= j < i && t[j].symbol + 1 == slot;
                assert(t[j] == t[i as int]);
            }
            return false;
        }
        let ghost used0 = used@;
        used.set(slot, true);
        proof {
            assert(!used0[slot as int]);
            assert forall|a: int, b: int| 0 <= a < i + 1 && 0 <= b < i + 1 && a != b implies #[trigger] t[a] != #[trigger] t[b] by {
                if a == i && t[a] == t[b] {
                    assert(t[b].symbol + 1 == slot);
                    assert(used0[slot as int]);
                }
                if b == i && t[a] == t[b] {
                    assert(t[a].symbol + 1 == slot);
                    assert(used0[slot as int]);
                }
            }
            assert forall|v: int| 0 <= v <= n2 implies (#[trigger] used@[v] <==> exists|j: int| 0 <= j < i + 1 && t[j].symbol + 1 == v) by {
                if v == slot {
                    assert(t[i as int].symbol + 1 == v);
                } else if exists|j: int| 0 <= j < i + 1 && t[j].symbol + 1 == v {
                    let j = choose|j: int| 0 <= j < i + 1 && t[j].symbol + 1 == v;
                    assert(j != i);
                }
            }
        }
        i = i + 1;
    }
    if used[0] {
        proof {
            let j = choose|j: int| 0 <= j < i && t[j].symbol + 1 == 0;
            assert(t[j].symbol == BLANK_TILE);
        }
        true
    } else {
        proof {
            assert forall|j: int| 0 <= j < t.len() implies (#[trigger] t[j]).symbol != BLANK_TILE by {
                if t[j].symbol == BLANK_TILE {
                    assert(exists|jj: int| 0 <= jj < i && t[jj].symbol + 1 == 0);
                }
            }
        }
        false
    }
}

} // verus!

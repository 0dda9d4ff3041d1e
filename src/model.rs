//! The mathematical model: quadkeys as sequences of digits and tiles as
//! integer pairs, with the laws that relate them.
use vstd::prelude::*;
use vstd::arithmetic::power2::{pow2, lemma_pow2_pos, lemma_pow2_adds, lemma_pow2_unfold, lemma2_to64};
use vstd::arithmetic::div_mod::{
    lemma_div_denominator,
    lemma_hoist_over_denominator,
    lemma_mod_multiples_vanish,
};
use vstd::arithmetic::mul::lemma_mul_is_commutative;

verus! {

/// Whether bit `k` of `v` is set, in two's complement for negative `v`.
pub open spec fn has_bit(v: int, k: nat) -> bool {
    (v / pow2(k) as int) % 2 == 1
}

/// The quadkey digit for one zoom level: the x bit counts 1, the y bit 2.
pub open spec fn quad_digit(x_bit: bool, y_bit: bool) -> char {
    if !x_bit && !y_bit {
        '0'
    } else if x_bit && !y_bit {
        '1'
    } else if !x_bit && y_bit {
        '2'
    } else {
        '3'
    }
}

/// The quadkey of tile `(x, y)` at `precision` levels, most significant level first.
pub open spec fn quadkey_of(x: int, y: int, precision: nat) -> Seq<char> {
    Seq::new(
        precision,
        |j: int| quad_digit(has_bit(x, (precision - 1 - j) as nat), has_bit(y, (precision - 1 - j) as nat)),
    )
}

pub open spec fn is_quad_digit(c: char) -> bool {
    c == '0' || c == '1' || c == '2' || c == '3'
}

/// Every character of `s` is one of the four quadkey digits.
pub open spec fn is_valid_quadkey(s: Seq<char>) -> bool {
    forall|i: int| 0 <= i < s.len() ==> is_quad_digit(#[trigger] s[i])
}

pub open spec fn digit_x_bit(c: char) -> int {
    if c == '1' || c == '3' { 1 } else { 0 }
}

pub open spec fn digit_y_bit(c: char) -> int {
    if c == '2' || c == '3' { 1 } else { 0 }
}

/// The tile column that a quadkey denotes.
pub open spec fn tile_x_of(s: Seq<char>) -> int
    decreases s.len(),
{
    if s.len() == 0 {
        0
    } else {
        2 * tile_x_of(s.drop_last()) + digit_x_bit(s.last())
    }
}

/// The tile row that a quadkey denotes.
pub open spec fn tile_y_of(s: Seq<char>) -> int
    decreases s.len(),
{
    if s.len() == 0 {
        0
    } else {
        2 * tile_y_of(s.drop_last()) + digit_y_bit(s.last())
    }
}

/// The tile of a quadkey of length `p` lies within the `2^p` by `2^p` grid.
pub proof fn lemma_tile_in_grid(s: Seq<char>)
    ensures
        0 <= tile_x_of(s) < pow2(s.len()),
        0 <= tile_y_of(s) < pow2(s.len()),
    decreases s.len(),
{
    if s.len() == 0 {
        lemma2_to64();
    } else {
        lemma_tile_in_grid(s.drop_last());
        lemma_pow2_unfold(s.len());
    }
}

/// Dropping the `a` lowest bits moves bit `a + b` down to bit `b`.
pub proof fn lemma_has_bit_shift(x: int, a: nat, b: nat)
    requires
        0 <= x,
    ensures
        has_bit(x / pow2(a) as int, b) == has_bit(x, a + b),
{
    lemma_pow2_pos(a);
    lemma_pow2_pos(b);
    lemma_pow2_adds(a, b);
    lemma_div_denominator(x, pow2(a) as int, pow2(b) as int);
}

/// Bits below 32 do not change when `2^32` is added.
pub proof fn lemma_has_bit_word(v: int, k: nat)
    requires
        k < 32,
    ensures
        has_bit(v + pow2(32) as int, k) == has_bit(v, k),
{
    let m = pow2((31 - k) as nat) as int;
    lemma_pow2_pos(k);
    lemma_pow2_adds(k, (32 - k) as nat);
    lemma_pow2_unfold((32 - k) as nat);
    assert(pow2((32 - k) as nat) == 2 * m);
    assert(pow2(32) == pow2(k) * pow2((32 - k) as nat));
    assert(pow2(32) as int == (2 * m) * pow2(k)) by {
        lemma_mul_is_commutative(2 * m, pow2(k) as int);
    }
    lemma_hoist_over_denominator(v, 2 * m, pow2(k));
    lemma_mod_multiples_vanish(m, v / pow2(k) as int, 2);
}

/// Splitting off the last level: the quadkey of `(x, y)` at `p + 1` levels is that
/// of the parent tile at `p` levels, followed by the digit of the lowest bits.
pub proof fn lemma_quadkey_of_last(x: int, y: int, p: nat)
    requires
        0 <= x,
        0 <= y,
    ensures
        quadkey_of(x, y, p + 1) == quadkey_of(x / 2, y / 2, p).push(
            quad_digit(x % 2 == 1, y % 2 == 1),
        ),
{
    lemma2_to64();
    let lhs = quadkey_of(x, y, p + 1);
    let rhs = quadkey_of(x / 2, y / 2, p).push(quad_digit(x % 2 == 1, y % 2 == 1));
    assert forall|j: int| 0 <= j < p + 1 implies lhs[j] == rhs[j] by {
        if j < p {
            lemma_has_bit_shift(x, 1, (p - 1 - j) as nat);
            lemma_has_bit_shift(y, 1, (p - 1 - j) as nat);
        } else {
            assert(x / pow2(0) as int == x);
            assert(y / pow2(0) as int == y);
        }
    }
    assert(lhs =~= rhs);
}

/// Decoding the quadkey of a tile inside the `2^p` by `2^p` grid gives back that tile.
pub proof fn lemma_tile_round_trip(x: int, y: int, p: nat)
    requires
        0 <= x < pow2(p),
        0 <= y < pow2(p),
    ensures
        is_valid_quadkey(quadkey_of(x, y, p)),
        tile_x_of(quadkey_of(x, y, p)) == x,
        tile_y_of(quadkey_of(x, y, p)) == y,
    decreases p,
{
    let q = quadkey_of(x, y, p);
    assert(is_valid_quadkey(q));
    if p == 0 {
        lemma2_to64();
    } else {
        let p1 = (p - 1) as nat;
        lemma_pow2_unfold(p);
        lemma_tile_round_trip(x / 2, y / 2, p1);
        lemma_quadkey_of_last(x, y, p1);
        assert(q.drop_last() =~= quadkey_of(x / 2, y / 2, p1));
    }
}

/// Encoding the tile of a well-formed quadkey at its own length gives back the quadkey.
pub proof fn lemma_quadkey_round_trip(s: Seq<char>)
    requires
        is_valid_quadkey(s),
    ensures
        quadkey_of(tile_x_of(s), tile_y_of(s), s.len()) == s,
    decreases s.len(),
{
    if s.len() == 0 {
        assert(quadkey_of(0, 0, 0) =~= s);
    } else {
        let t = s.drop_last();
        assert(is_valid_quadkey(t)) by {
            assert forall|i: int| 0 <= i < t.len() implies is_quad_digit(#[trigger] t[i]) by {
                assert(t[i] == s[i]);
            }
        }
        assert(is_quad_digit(s[s.len() - 1]));
        lemma_quadkey_round_trip(t);
        lemma_tile_in_grid(t);
        lemma_quadkey_of_last(tile_x_of(s), tile_y_of(s), t.len());
        assert(s =~= t.push(s.last()));
    }
}

/// Every quadkey has as many digits as the precision it was made for.
pub proof fn lemma_quadkey_length(x: int, y: int, p: nat)
    ensures
        quadkey_of(x, y, p).len() == p,
{
}

/// The first `k` digits of a quadkey of length `p` are the quadkey, at precision
/// `k`, of its ancestor tile: the tile with both indices shifted right by `p - k` bits.
pub proof fn lemma_prefix_is_ancestor(s: Seq<char>, k: nat)
    requires
        is_valid_quadkey(s),
        k < s.len(),
    ensures
        s.subrange(0, k as int) == quadkey_of(
            tile_x_of(s) / pow2((s.len() - k) as nat) as int,
            tile_y_of(s) / pow2((s.len() - k) as nat) as int,
            k,
        ),
{
    let p = s.len();
    let a = (p - k) as nat;
    let x = tile_x_of(s);
    let y = tile_y_of(s);
    lemma_tile_in_grid(s);
    lemma_quadkey_round_trip(s);
    let rhs = quadkey_of(x / pow2(a) as int, y / pow2(a) as int, k);
    assert forall|j: int| 0 <= j < k implies s[j] == rhs[j] by {
        lemma_has_bit_shift(x, a, (k - 1 - j) as nat);
        lemma_has_bit_shift(y, a, (k - 1 - j) as nat);
        assert(a + (k - 1 - j) == p - 1 - j);
    }
    assert(s.subrange(0, k as int) =~= rhs);
}

} // verus!

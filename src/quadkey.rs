//! The integer stages of the coordinate pipeline: pixel and tile coordinates,
//! quadkey encoding and decoding, and the neighbourhood of a quadkey.
use vstd::prelude::*;
use vstd::string::StrSliceExecFns;
use vstd::string::StringExecFns;
use vstd::bits::lemma_u64_shr_is_div;
use vstd::arithmetic::power2::{pow2, lemma2_to64, lemma_pow2_strictly_increases, lemma_pow2_unfold};
use crate::model::{
    has_bit,
    quadkey_of,
    is_valid_quadkey,
    is_quad_digit,
    digit_x_bit,
    digit_y_bit,
    tile_x_of,
    tile_y_of,
    lemma_has_bit_word,
    lemma_tile_in_grid,
    lemma_quadkey_round_trip,
};

verus! {

/// Edge length of a tile, in pixels.
pub const TILE_SIZE: i32 = 256;

/// The one way a conversion can fail.
#[derive(Debug, Clone, Copy, PartialEq, Eq, Structural)]
pub enum QuadkeyError {
    /// The quadkey holds a character other than the digits `0` to `3`.
    InvalidQuadkey,
}

/// The coordinate conversions of the tiling scheme. It holds no state: every
/// conversion is an associated function.
pub struct Quadkey;

/// Integer division rounding toward zero, as Rust's `/` does.
pub open spec fn trunc_div(a: int, d: int) -> int {
    if a >= 0 {
        a / d
    } else {
        -((-a) / d)
    }
}

/// Column offset of the `i`-th neighbour, in row-major order around the centre.
pub open spec fn neighbor_dx(i: int) -> int {
    i % 3 - 1
}

/// Row offset of the `i`-th neighbour, in row-major order around the centre.
pub open spec fn neighbor_dy(i: int) -> int {
    i / 3 - 1
}

/// The 32 low bits of `v`, as a non-negative word.
fn low_word(v: i64) -> (r: u64)
    requires
        -0x1_0000_0000 <= v < 0x1_0000_0000,
    ensures
        forall|k: nat| k < 32 ==> has_bit(r as int, k) == has_bit(v as int, k),
{
    proof {
        lemma2_to64();
    }
    if v < 0 {
        let r = (v + 0x1_0000_0000) as u64;
        assert forall|k: nat| k < 32 implies has_bit(r as int, k) == has_bit(v as int, k) by {
            lemma_has_bit_word(v as int, k);
        }
        r
    } else {
        v as u64
    }
}

/// The quadkey of a tile whose indices may lie a little outside the grid.
fn quadkey_from_tile(tile_x: i64, tile_y: i64, precision: usize) -> (r: String)
    requires
        precision <= 32,
        -0x1_0000_0000 <= tile_x < 0x1_0000_0000,
        -0x1_0000_0000 <= tile_y < 0x1_0000_0000,
    ensures
        r@ == quadkey_of(tile_x as int, tile_y as int, precision as nat),
{
    let ghost target = quadkey_of(tile_x as int, tile_y as int, precision as nat);
    let word_x = low_word(tile_x);
    let word_y = low_word(tile_y);
    let mut quadkey = String::new();
    let mut j: usize = 0;
    while j < precision
        invariant
            j <= precision <= 32,
            target == quadkey_of(tile_x as int, tile_y as int, precision as nat),
            forall|k: nat| k < 32 ==> has_bit(word_x as int, k) == has_bit(tile_x as int, k),
            forall|k: nat| k < 32 ==> has_bit(word_y as int, k) == has_bit(tile_y as int, k),
            quadkey@ == target.subrange(0, j as int),
        decreases precision - j,
    {
        let level = (precision - 1 - j) as u64;
        proof {
            lemma_u64_shr_is_div(word_x, level);
            lemma_u64_shr_is_div(word_y, level);
        }
        let x_bit = (word_x >> level) % 2 == 1;
        let y_bit = (word_y >> level) % 2 == 1;
        assert(x_bit == has_bit(tile_x as int, level as nat));
        assert(y_bit == has_bit(tile_y as int, level as nat));
        proof {
            reveal_strlit("0");
            reveal_strlit("1");
            reveal_strlit("2");
            reveal_strlit("3");
        }
        if !x_bit && !y_bit {
            quadkey.append("0");
        } else if x_bit && !y_bit {
            quadkey.append("1");
        } else if !x_bit && y_bit {
            quadkey.append("2");
        } else {
            quadkey.append("3");
        }
        assert(quadkey@ =~= target.subrange(0, j + 1));
        j = j + 1;
    }
    assert(quadkey@ =~= target);
    quadkey
}

impl Quadkey {
    /// The tile that holds a pixel: each coordinate divided by the tile size,
    /// rounding toward zero.
    pub fn pixel_to_tile(pixel_x: i32, pixel_y: i32) -> (r: (i32, i32))
        ensures
            r.0 == trunc_div(pixel_x as int, TILE_SIZE as int),
            r.1 == trunc_div(pixel_y as int, TILE_SIZE as int),
    {
        let tile_x = pixel_x / TILE_SIZE;
        let tile_y = pixel_y / TILE_SIZE;
        (tile_x, tile_y)
    }

    /// The pixel at the top-left corner of a tile.
    pub fn tile_to_pixel(tile_x: i32, tile_y: i32) -> (r: (i32, i32))
        requires
            i32::MIN <= tile_x * TILE_SIZE <= i32::MAX,
            i32::MIN <= tile_y * TILE_SIZE <= i32::MAX,
        ensures
            r.0 == tile_x * TILE_SIZE,
            r.1 == tile_y * TILE_SIZE,
    {
        let pixel_x = tile_x * TILE_SIZE;
        let pixel_y = tile_y * TILE_SIZE;
        (pixel_x, pixel_y)
    }

    /// The quadkey of a tile: one digit per level, most significant level first.
    /// Indices outside the grid are encoded by their low `precision` bits.
    pub fn tile_to_quadkey(tile_x: i32, tile_y: i32, precision: usize) -> (r: String)
        requires
            precision <= 32,
        ensures
            r@ == quadkey_of(tile_x as int, tile_y as int, precision as nat),
            r@.len() == precision,
    {
        quadkey_from_tile(tile_x as i64, tile_y as i64, precision)
    }
    /// The tile that a quadkey denotes, with its precision (the quadkey's length).
    /// Fails with `InvalidQuadkey` exactly when some character is not a digit `0` to `3`.
    pub fn quadkey_to_tile(quadkey: &str) -> (r: Result<(i32, i32, usize), QuadkeyError>)
        requires
            quadkey@.len() <= 31,
        ensures
            match r {
                Ok((tile_x, tile_y, precision)) => {
                    &&& is_valid_quadkey(quadkey@)
                    &&& tile_x == tile_x_of(quadkey@)
                    &&& tile_y == tile_y_of(quadkey@)
                    &&& precision == quadkey@.len()
                },
                Err(e) => !is_valid_quadkey(quadkey@) && e == QuadkeyError::InvalidQuadkey,
            },
    {
        let ghost s = quadkey@;
        let precision = quadkey.unicode_len();
        let mut tile_x: i32 = 0;
        let mut tile_y: i32 = 0;
        let mut i: usize = 0;
        proof {
            lemma2_to64();
        }
        while i < precision
            invariant
                s == quadkey@,
                precision == s.len() <= 31,
                i <= precision,
                is_valid_quadkey(s.subrange(0, i as int)),
                tile_x == tile_x_of(s.subrange(0, i as int)),
                tile_y == tile_y_of(s.subrange(0, i as int)),
                0 <= tile_x < pow2(i as nat),
                0 <= tile_y < pow2(i as nat),
            decreases precision - i,
        {
            let digit = quadkey.get_char(i);
            let (x_bit, y_bit): (i32, i32) = match digit {
                '0' => (0, 0),
                '1' => (1, 0),
                '2' => (0, 1),
                '3' => (1, 1),
                _ => {
                    assert(!is_quad_digit(s[i as int]));
                    return Err(QuadkeyError::InvalidQuadkey);
                },
            };
            proof {
                lemma2_to64();
                lemma_pow2_unfold((i + 1) as nat);
                assert(pow2((i + 1) as nat) == 2 * pow2(i as nat));
                if i + 1 < 31 {
                    lemma_pow2_strictly_increases((i + 1) as nat, 31);
                }
                assert(pow2((i + 1) as nat) <= 0x8000_0000);
                let prefix = s.subrange(0, i + 1);
                assert(prefix.drop_last() =~= s.subrange(0, i as int));
                assert(prefix.last() == digit);
                assert(is_valid_quadkey(prefix)) by {
                    assert forall|k: int| 0 <= k < prefix.len() implies is_quad_digit(
                        #[trigger] prefix[k],
                    ) by {
                        if k < i {
                            assert(prefix[k] == s.subrange(0, i as int)[k]);
                        }
                    }
                }
                assert(x_bit == digit_x_bit(digit));
                assert(y_bit == digit_y_bit(digit));
            }
            tile_x = 2 * tile_x + x_bit;
            tile_y = 2 * tile_y + y_bit;
            i = i + 1;
        }
        assert(s.subrange(0, i as int) =~= s);
        Ok((tile_x, tile_y, precision))
    }

    /// The quadkeys of the nine tiles around a quadkey's tile, the tile itself
    /// included, in row-major order: offsets `(dx, dy)` with `dy` from -1 to 1 and,
    /// within a row, `dx` from -1 to 1. Tiles that fall outside the grid are not
    /// flagged: their quadkeys hold the low bits of their indices.
    pub fn neighbors(quadkey: &str) -> (r: Result<Vec<String>, QuadkeyError>)
        requires
            quadkey@.len() <= 31,
        ensures
            match r {
                Ok(keys) => {
                    &&& is_valid_quadkey(quadkey@)
                    &&& keys.len() == 9
                    &&& forall|i: int|
                        0 <= i < 9 ==> #[trigger] keys[i]@ == quadkey_of(
                            tile_x_of(quadkey@) + neighbor_dx(i),
                            tile_y_of(quadkey@) + neighbor_dy(i),
                            quadkey@.len(),
                        )
                    &&& keys[4]@ == quadkey@
                },
                Err(e) => !is_valid_quadkey(quadkey@) && e == QuadkeyError::InvalidQuadkey,
            },
    {
        let (tile_x, tile_y, precision) = match Self::quadkey_to_tile(quadkey) {
            Ok(tile) => tile,
            Err(e) => {
                return Err(e);
            },
        };
        proof {
            lemma2_to64();
            lemma_tile_in_grid(quadkey@);
            if precision < 31 {
                lemma_pow2_strictly_increases(precision as nat, 31);
            }
        }
        let mut keys: Vec<String> = Vec::new();
        let mut i: i64 = 0;
        while i < 9
            invariant
                0 <= i <= 9,
                precision == quadkey@.len() <= 31,
                0 <= tile_x < 0x8000_0000,
                0 <= tile_y < 0x8000_0000,
                tile_x == tile_x_of(quadkey@),
                tile_y == tile_y_of(quadkey@),
                keys.len() == i,
                forall|k: int|
                    0 <= k < i ==> #[trigger] keys[k]@ == quadkey_of(
                        tile_x_of(quadkey@) + neighbor_dx(k),
                        tile_y_of(quadkey@) + neighbor_dy(k),
                        quadkey@.len(),
                    ),
            decreases 9 - i,
        {
            let dx = i % 3 - 1;
            let dy = i / 3 - 1;
            let key = quadkey_from_tile(tile_x as i64 + dx, tile_y as i64 + dy, precision);
            keys.push(key);
            i = i + 1;
        }
        proof {
            lemma_quadkey_round_trip(quadkey@);
            assert(neighbor_dx(4) == 0 && neighbor_dy(4) == 0);
        }
        Ok(keys)
    }
} // impl Quadkey

} // verus!

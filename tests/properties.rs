use geo_quadkey_rs::{Quadkey, QuadkeyError};

#[test]
fn tile_round_trip_over_small_grids() {
    for precision in 0..6usize {
        let side = 1i32 << precision;
        for x in 0..side {
            for y in 0..side {
                let key = Quadkey::tile_to_quadkey(x, y, precision);
                assert_eq!(Quadkey::quadkey_to_tile(&key), Ok((x, y, precision)));
            }
        }
    }
}

#[test]
fn tile_round_trip_at_largest_precision() {
    let max = i32::MAX;
    let key = Quadkey::tile_to_quadkey(max, 0, 31);
    assert_eq!(key, "1".repeat(31));
    assert_eq!(Quadkey::quadkey_to_tile(&key), Ok((max, 0, 31)));
}

#[test]
fn quadkey_length_matches_precision() {
    for precision in 0..=32usize {
        assert_eq!(Quadkey::tile_to_quadkey(114, 403, precision).len(), precision);
    }
}

#[test]
fn precision_zero_gives_empty_quadkey() {
    assert_eq!(Quadkey::tile_to_quadkey(0, 0, 0), "");
    assert_eq!(Quadkey::quadkey_to_tile(""), Ok((0, 0, 0)));
}

#[test]
fn prefix_is_ancestor_tile() {
    let key = "0221130032013320";
    let (x, y, p) = Quadkey::quadkey_to_tile(key).unwrap();
    for k in 0..p {
        let shift = (p - k) as u32;
        let ancestor = Quadkey::tile_to_quadkey(x >> shift, y >> shift, k);
        assert_eq!(ancestor, &key[..k]);
    }
}

#[test]
fn neighbors_centre_is_the_quadkey() {
    for key in ["0", "3", "0221130032", "0221130032013320", ""] {
        let neighbors = Quadkey::neighbors(key).unwrap();
        assert_eq!(neighbors.len(), 9);
        assert_eq!(neighbors[4], key);
    }
}

#[test]
fn neighbors_follow_row_major_offsets() {
    let key = "0221130032";
    let neighbors = Quadkey::neighbors(key).unwrap();
    let mut i = 0;
    for dy in -1..=1 {
        for dx in -1..=1 {
            assert_eq!(neighbors[i], Quadkey::tile_to_quadkey(114 + dx, 403 + dy, 10));
            i += 1;
        }
    }
}

#[test]
fn neighbors_at_grid_edge_use_low_bits() {
    // At precision 1 the tile left of column 0 is column -1, whose low bit is set.
    let neighbors = Quadkey::neighbors("0").unwrap();
    assert_eq!(neighbors, vec!["3", "2", "3", "1", "0", "1", "3", "2", "3"]);
}

#[test]
fn neighbors_at_largest_precision() {
    let key = "3".repeat(31);
    let neighbors = Quadkey::neighbors(&key).unwrap();
    assert_eq!(neighbors[4], key);
    assert_eq!(neighbors[8], "0".repeat(31));
    assert_eq!(neighbors[0], format!("{}0", "3".repeat(30)));
}

#[test]
fn invalid_digit_is_rejected() {
    assert_eq!(Quadkey::quadkey_to_tile("5"), Err(QuadkeyError::InvalidQuadkey));
    assert_eq!(Quadkey::quadkey_to_tile("02x1"), Err(QuadkeyError::InvalidQuadkey));
    assert_eq!(Quadkey::quadkey_to_tile("012é"), Err(QuadkeyError::InvalidQuadkey));
    assert_eq!(Quadkey::neighbors("02x1"), Err(QuadkeyError::InvalidQuadkey));
    assert_eq!(Quadkey::neighbors("4"), Err(QuadkeyError::InvalidQuadkey));
}

#[test]
fn pixel_to_tile_rounds_toward_zero() {
    assert_eq!(Quadkey::pixel_to_tile(255, 256), (0, 1));
    assert_eq!(Quadkey::pixel_to_tile(0, 511), (0, 1));
    assert_eq!(Quadkey::pixel_to_tile(-1, -257), (0, -1));
}

#[test]
fn tile_to_pixel_scales_by_tile_size() {
    assert_eq!(Quadkey::tile_to_pixel(0, 1), (0, 256));
    assert_eq!(Quadkey::tile_to_pixel(-2, 3), (-512, 768));
}

#[test]
fn pixel_to_quadkey_scenario() {
    let (x, y) = Quadkey::pixel_to_tile(29297, 103227);
    assert_eq!(Quadkey::tile_to_quadkey(x, y, 10), "0221130032");
}

#[test]
fn negative_tile_encodes_twos_complement_bits() {
    assert_eq!(Quadkey::tile_to_quadkey(-1, 0, 3), "111");
    assert_eq!(Quadkey::tile_to_quadkey(0, -2, 3), "220");
    assert_eq!(Quadkey::tile_to_quadkey(i32::MIN, 0, 32), format!("1{}", "0".repeat(31)));
}

use vermarine_lib::hexmap::{Axial, ChunkPos, Cube, Hex, HexChunk, CHUNK_TOTAL};
use vermarine_lib::num::{floor_div, gcd, isqrt, mul_div_trunc};

#[test]
fn chunk_pos_sparse_index() {
    // The zig-zag fold: 0, -1, 1, -2, 2 map to 0, 1, 2, 3, 4.
    assert_eq!(ChunkPos::new(0, 0).sparse_index(), (0, 0));
    assert_eq!(ChunkPos::new(-1, 1).sparse_index(), (1, 2));
    assert_eq!(ChunkPos::new(2, -2).sparse_index(), (4, 3));
}

#[test]
fn cube_validity() {
    assert!(Cube::new(1, 2, -3).is_valid());
    assert!(!Cube::new(1, 2, 3).is_valid());
    let a = Axial::new(4, -7);
    let c = a.to_cube();
    assert_eq!(c, Cube::new(4, -7, 3));
    assert!(c.is_valid());
    assert_eq!(c.to_axial(), a);
}

#[test]
fn hex_conversions() {
    let a = Axial::new(2, 3);
    assert_eq!(a.to_hex(), Hex::Axial(a));
    let c = Cube::new(2, 3, -5);
    assert_eq!(c.to_hex(), Hex::Cube(c));
    assert_eq!(c.to_hex().to_axial(), a);
}

#[test]
fn hex_neighbors() {
    let h = Hex::Axial(Axial::new(3, 4));
    let n = h.neighbors();
    assert_eq!(n[0], Hex::Axial(Axial::new(3, 3)));
    assert_eq!(n[1], Hex::Axial(Axial::new(4, 3)));
    assert_eq!(n[2], Hex::Axial(Axial::new(4, 4)));
    assert_eq!(n[3], Hex::Axial(Axial::new(3, 5)));
    assert_eq!(n[4], Hex::Axial(Axial::new(2, 5)));
    assert_eq!(n[5], Hex::Axial(Axial::new(2, 4)));

    let h = Hex::Cube(Cube::new(1, 1, -2));
    let n = h.neighbors();
    assert_eq!(n[0], Hex::Cube(Cube::new(1, 0, -1)));
    assert_eq!(n[3], Hex::Cube(Cube::new(1, 2, -3)));
}

#[test]
fn chunk_set_get() {
    let mut tiles: Vec<Option<u32>> = Vec::new();
    for _ in 0..CHUNK_TOTAL {
        tiles.push(None);
    }
    let mut chunk = HexChunk::new(tiles, -1, 2);
    assert_eq!(chunk.sparse_index(), (1, 4));

    let hex = Hex::Axial(Axial::new(3, 5));
    assert!(chunk.get_tile(&hex).is_none());
    chunk.set_tile(&hex, 7);
    assert_eq!(chunk.get_tile(&hex), Some(&7));

    if let Some(t) = chunk.get_tile_mut(&hex) {
        *t = 9;
    }
    assert_eq!(chunk.get_tile(&hex), Some(&9));

    let other = Hex::Cube(Cube::new(2, 5, -7));
    assert!(chunk.get_tile(&other).is_none());
    chunk.set_tile(&other, 1);
    assert_eq!(chunk.get_tile(&other), Some(&1));
    assert_eq!(chunk.get_tile(&hex), Some(&9));
}

#[test]
fn integer_helpers() {
    // Floor division rounds toward negative infinity.
    assert_eq!(floor_div(7, 2), 3);
    assert_eq!(floor_div(-7, 2), -4);
    assert_eq!(floor_div(-8, 2), -4);
    assert_eq!(floor_div(0, 5), 0);

    // The integer square root rounds down.
    assert_eq!(isqrt(0), 0);
    assert_eq!(isqrt(1), 1);
    assert_eq!(isqrt(2), 1);
    assert_eq!(isqrt(25), 5);
    assert_eq!(isqrt(24), 4);
    assert_eq!(isqrt(u64::MAX), 4294967295);

    // Euclid's algorithm.
    assert_eq!(gcd(12, 18), 6);
    assert_eq!(gcd(0, 5), 5);
    assert_eq!(gcd(7, 0), 7);
    assert_eq!(gcd(1, 1), 1);

    // Truncating division of an exact product.
    assert_eq!(mul_div_trunc(7, 3, 2), 10);
    assert_eq!(mul_div_trunc(-7, 3, 2), -10);
    assert_eq!(mul_div_trunc(4, 4, 16), 1);
}

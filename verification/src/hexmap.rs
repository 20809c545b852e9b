//! Hex-grid coordinates and fixed-size tile chunks.
//!
//! Coordinates come in two forms: axial `(q, r)` and cube `(q, r, s)` with
//! the invariant `q + r + s == 0`.  A chunk stores one optional tile per
//! axial coordinate of a fixed 16 by 16 window, and carries its own chunk
//! position, folded to nonnegative sparse indices by the same zig-zag fold
//! the broad phase uses.

use vstd::prelude::*;
use crate::physics::spatialhash::zig;

verus! {

pub const CHUNK_WIDTH: usize = 16;

pub const CHUNK_HEIGHT: usize = 16;

pub const CHUNK_TOTAL: usize = CHUNK_WIDTH * CHUNK_HEIGHT;

/// The position of a chunk in the chunk grid.
#[derive(Clone, Copy, Debug, PartialEq, Eq, Structural)]
pub struct ChunkPos {
    pub q: i32,
    pub r: i32,
}

impl ChunkPos {
    pub fn new(q: i32, r: i32) -> (c: ChunkPos)
        ensures
            c.q == q,
            c.r == r,
    {
        ChunkPos { q, r }
    }

    /// Both coordinates folded onto nonnegative indices by the zig-zag fold.
    pub fn sparse_index(&self) -> (r: (usize, usize))
        ensures
            r.0 == zig(self.q as int),
            r.1 == zig(self.r as int),
    {
        let mut pq: i64 = (self.q as i64) * 2;
        if pq < 0 {
            pq = -pq;
            pq = pq - 1;
        }
        let mut pr: i64 = (self.r as i64) * 2;
        if pr < 0 {
            pr = -pr;
            pr = pr - 1;
        }
        (pq as usize, pr as usize)
    }
}

/// An axial hex coordinate.
#[derive(Clone, Copy, Debug, PartialEq, Eq, Structural)]
pub struct Axial {
    pub q: i32,
    pub r: i32,
}

/// A cube hex coordinate; valid when its components sum to zero.
#[derive(Clone, Copy, Debug, PartialEq, Eq, Structural)]
pub struct Cube {
    pub q: i32,
    pub r: i32,
    pub s: i32,
}

/// A hex coordinate in either form.
#[derive(Clone, Copy, Debug, PartialEq, Eq, Structural)]
pub enum Hex {
    Axial(Axial),
    Cube(Cube),
}

/// The axial form of a hex coordinate: a cube coordinate drops its third
/// component.
pub open spec fn hex_axial(h: Hex) -> Axial {
    match h {
        Hex::Axial(a) => a,
        Hex::Cube(c) => Axial { q: c.q, r: c.r },
    }
}

/// A hex coordinate is well-formed when a cube form satisfies the cube
/// invariant.
pub open spec fn hex_wf(h: Hex) -> bool {
    match h {
        Hex::Axial(a) => true,
        Hex::Cube(c) => c.q + c.r + c.s == 0,
    }
}

impl Axial {
    pub fn new(q: i32, r: i32) -> (a: Axial)
        ensures
            a.q == q,
            a.r == r,
    {
        Axial { q, r }
    }

    /// The cube form: the third component balances the sum to zero.
    pub fn to_cube(&self) -> (c: Cube)
        requires
            i32::MIN <= -(self.q + self.r) <= i32::MAX,
        ensures
            c.q == self.q,
            c.r == self.r,
            c.s == -(self.q + self.r),
            c.is_valid_spec(),
    {
        let s64 = -((self.q as i64) + (self.r as i64));
        Cube { q: self.q, r: self.r, s: s64 as i32 }
    }

    pub fn to_hex(&self) -> (h: Hex)
        ensures
            h == Hex::Axial(*self),
    {
        Hex::Axial(*self)
    }
}

impl Cube {
    /// The cube invariant: the three components sum to zero.
    pub open spec fn is_valid_spec(&self) -> bool {
        self.q + self.r + self.s == 0
    }

    pub fn new(q: i32, r: i32, s: i32) -> (c: Cube)
        ensures
            c.q == q,
            c.r == r,
            c.s == s,
    {
        Cube { q, r, s }
    }

    /// The axial form of a valid cube coordinate: the third component is
    /// dropped.
    pub fn to_axial(&self) -> (a: Axial)
        requires
            self.is_valid_spec(),
        ensures
            a.q == self.q,
            a.r == self.r,
    {
        Axial { q: self.q, r: self.r }
    }

    pub fn to_hex(&self) -> (h: Hex)
        ensures
            h == Hex::Cube(*self),
    {
        Hex::Cube(*self)
    }

    pub fn is_valid(&self) -> (r: bool)
        ensures
            r == self.is_valid_spec(),
    {
        (self.q as i64) + (self.r as i64) + (self.s as i64) == 0
    }
}

impl Hex {
    /// The axial form; a cube form must be valid.
    pub fn to_axial(&self) -> (a: Axial)
        requires
            hex_wf(*self),
        ensures
            a == hex_axial(*self),
    {
        match self {
            Hex::Axial(a) => *a,
            Hex::Cube(c) => c.to_axial(),
        }
    }

    /// The six adjacent hexes, clockwise from the upper neighbour, in the
    /// same coordinate form as this hex.
    pub fn neighbors(&self) -> (r: [Hex; 6])
        requires
            match *self {
                Hex::Axial(a) => i32::MIN < a.q < i32::MAX && i32::MIN < a.r < i32::MAX,
                Hex::Cube(c) => i32::MIN < c.q < i32::MAX && i32::MIN < c.r < i32::MAX && i32::MIN
                    < c.s < i32::MAX,
            },
        ensures
            r@ == match *self {
                Hex::Axial(a) => seq![
                    Hex::Axial(Axial { q: a.q, r: (a.r - 1) as i32 }),
                    Hex::Axial(Axial { q: (a.q + 1) as i32, r: (a.r - 1) as i32 }),
                    Hex::Axial(Axial { q: (a.q + 1) as i32, r: a.r }),
                    Hex::Axial(Axial { q: a.q, r: (a.r + 1) as i32 }),
                    Hex::Axial(Axial { q: (a.q - 1) as i32, r: (a.r + 1) as i32 }),
                    Hex::Axial(Axial { q: (a.q - 1) as i32, r: a.r }),
                ],
                Hex::Cube(c) => seq![
                    Hex::Cube(Cube { q: c.q, r: (c.r - 1) as i32, s: (c.s + 1) as i32 }),
                    Hex::Cube(Cube { q: (c.q + 1) as i32, r: (c.r - 1) as i32, s: c.s }),
                    Hex::Cube(Cube { q: (c.q + 1) as i32, r: c.r, s: (c.s - 1) as i32 }),
                    Hex::Cube(Cube { q: c.q, r: (c.r + 1) as i32, s: (c.s - 1) as i32 }),
                    Hex::Cube(Cube { q: (c.q - 1) as i32, r: (c.r + 1) as i32, s: c.s }),
                    Hex::Cube(Cube { q: (c.q - 1) as i32, r: c.r, s: (c.s + 1) as i32 }),
                ],
            },
    {
        match self {
            Hex::Axial(a) => {
                let arr = [
                    Hex::Axial(Axial { q: a.q, r: a.r - 1 }),
                    Hex::Axial(Axial { q: a.q + 1, r: a.r - 1 }),
                    Hex::Axial(Axial { q: a.q + 1, r: a.r }),
                    Hex::Axial(Axial { q: a.q, r: a.r + 1 }),
                    Hex::Axial(Axial { q: a.q - 1, r: a.r + 1 }),
                    Hex::Axial(Axial { q: a.q - 1, r: a.r }),
                ];
                proof {
                    assert(arr@ =~= seq![
                        Hex::Axial(Axial { q: a.q, r: (a.r - 1) as i32 }),
                        Hex::Axial(Axial { q: (a.q + 1) as i32, r: (a.r - 1) as i32 }),
                        Hex::Axial(Axial { q: (a.q + 1) as i32, r: a.r }),
                        Hex::Axial(Axial { q: a.q, r: (a.r + 1) as i32 }),
                        Hex::Axial(Axial { q: (a.q - 1) as i32, r: (a.r + 1) as i32 }),
                        Hex::Axial(Axial { q: (a.q - 1) as i32, r: a.r }),
                    ]);
                }
                arr
            },
            Hex::Cube(c) => {
                let arr = [
                    Hex::Cube(Cube { q: c.q, r: c.r - 1, s: c.s + 1 }),
                    Hex::Cube(Cube { q: c.q + 1, r: c.r - 1, s: c.s }),
                    Hex::Cube(Cube { q: c.q + 1, r: c.r, s: c.s - 1 }),
                    Hex::Cube(Cube { q: c.q, r: c.r + 1, s: c.s - 1 }),
                    Hex::Cube(Cube { q: c.q - 1, r: c.r + 1, s: c.s }),
                    Hex::Cube(Cube { q: c.q - 1, r: c.r, s: c.s + 1 }),
                ];
                proof {
                    assert(arr@ =~= seq![
                        Hex::Cube(Cube { q: c.q, r: (c.r - 1) as i32, s: (c.s + 1) as i32 }),
                        Hex::Cube(Cube { q: (c.q + 1) as i32, r: (c.r - 1) as i32, s: c.s }),
                        Hex::Cube(Cube { q: (c.q + 1) as i32, r: c.r, s: (c.s - 1) as i32 }),
                        Hex::Cube(Cube { q: c.q, r: (c.r + 1) as i32, s: (c.s - 1) as i32 }),
                        Hex::Cube(Cube { q: (c.q - 1) as i32, r: (c.r + 1) as i32, s: c.s }),
                        Hex::Cube(Cube { q: (c.q - 1) as i32, r: c.r, s: (c.s + 1) as i32 }),
                    ]);
                }
                arr
            },
        }
    }
}

/// A 16 by 16 window of optional tiles with the chunk position it covers.
/// The fields are public for reading; mutate a chunk through its methods.
pub struct HexChunk<T> {
    pub tiles: Vec<Option<T>>,
    pub pos: ChunkPos,
}

impl<T> HexChunk<T> {
    /// The backing array holds one optional tile per coordinate of the
    /// window.
    pub open spec fn wf(&self) -> bool {
        self.tiles@.len() == CHUNK_TOTAL
    }

    /// A chunk at chunk position `(q, r)` over the given tiles, one per
    /// window coordinate in row-major order.
    pub fn new(tiles: Vec<Option<T>>, q: i32, r: i32) -> (c: HexChunk<T>)
        requires
            tiles@.len() == CHUNK_TOTAL,
        ensures
            c.wf(),
            c.tiles@ == tiles@,
            c.pos == (ChunkPos { q, r }),
    {
        HexChunk { tiles, pos: ChunkPos::new(q, r) }
    }

    /// The chunk position folded onto nonnegative sparse indices.
    pub fn sparse_index(&self) -> (r: (usize, usize))
        ensures
            r.0 == zig(self.pos.q as int),
            r.1 == zig(self.pos.r as int),
    {
        self.pos.sparse_index()
    }

    /// Stores a tile at a hex whose axial form lies inside the window.
    pub fn set_tile(&mut self, hex: &Hex, tile: T)
        requires
            old(self).wf(),
            hex_wf(*hex),
            0 <= hex_axial(*hex).q < CHUNK_WIDTH,
            0 <= hex_axial(*hex).r < CHUNK_HEIGHT,
        ensures
            final(self).wf(),
            final(self).pos == old(self).pos,
            final(self).tiles@ == old(self).tiles@.update(
                hex_axial(*hex).q + hex_axial(*hex).r * CHUNK_WIDTH,
                Some(tile),
            ),
    {
        let axial = hex.to_axial();
        let q = axial.q as usize;
        let r = axial.r as usize;
        self.tiles[q + r * CHUNK_WIDTH] = Some(tile);
    }

    /// Reads the tile at a hex whose axial form lies inside the window.
    pub fn get_tile(&self, hex: &Hex) -> (r: Option<&T>)
        requires
            self.wf(),
            hex_wf(*hex),
            0 <= hex_axial(*hex).q < CHUNK_WIDTH,
            0 <= hex_axial(*hex).r < CHUNK_HEIGHT,
        ensures
            match self.tiles@[hex_axial(*hex).q + hex_axial(*hex).r * CHUNK_WIDTH] {
                Option::None => r is None,
                Option::Some(t) => r is Some && *r->0 == t,
            },
    {
        let axial = hex.to_axial();
        let q = axial.q as usize;
        let rr = axial.r as usize;
        let tile = &self.tiles[q + rr * CHUNK_WIDTH];
        tile.as_ref()
    }

    /// Borrows the tile at a hex whose axial form lies inside the window,
    /// for mutation.
    pub fn get_tile_mut(&mut self, hex: &Hex) -> (r: Option<&mut T>)
        requires
            old(self).wf(),
            hex_wf(*hex),
            0 <= hex_axial(*hex).q < CHUNK_WIDTH,
            0 <= hex_axial(*hex).r < CHUNK_HEIGHT,
        ensures
            final(self).wf(),
            final(self).pos == old(self).pos,
            match old(self).tiles@[hex_axial(*hex).q + hex_axial(*hex).r * CHUNK_WIDTH] {
                Option::None => r is None && final(self).tiles@ == old(self).tiles@,
                Option::Some(t) => r is Some && *r.unwrap() == t && final(self).tiles@ == old(
                    self,
                ).tiles@.update(
                    hex_axial(*hex).q + hex_axial(*hex).r * CHUNK_WIDTH,
                    Some(*final(r.unwrap())),
                ),
            },
    {
        let axial = hex.to_axial();
        let q = axial.q as usize;
        let rr = axial.r as usize;
        let tile = &mut self.tiles[q + rr * CHUNK_WIDTH];
        tile.as_mut()
    }
}

} // verus!

//! The broad phase: a uniform grid of buckets mapping world-space cells to
//! the handles of the bodies whose bounding boxes touch them.
//!
//! A world coordinate is mapped to a cell by floor division with the fixed
//! bucket size; a cell coordinate, which may be negative, is mapped to a
//! nonnegative backing index by the zig-zag fold `0, -1, 1, -2, 2, ...`, so
//! growth never moves an entry.  The grid doubles in both dimensions whenever
//! an inserted box falls outside it, and never shrinks.

use vstd::prelude::*;
use crate::entity::EntityId;
use crate::components::Transform;
use crate::num::lemma_floor_div_bounds;
use crate::physics::{AABB, lemma_filter_push};

verus! {

/// The zig-zag fold of a cell coordinate onto a nonnegative index:
/// `0, -1, 1, -2, 2, ...` map to `0, 1, 2, 3, 4, ...`.
pub open spec fn zig(p: int) -> int {
    if p < 0 {
        -2 * p - 1
    } else {
        2 * p
    }
}

pub proof fn lemma_zig_nonneg(p: int)
    ensures
        zig(p) >= 0,
{
}

pub proof fn lemma_zig_injective(a: int, b: int)
    requires
        zig(a) == zig(b),
    ensures
        a == b,
{
}

/// Two in-range grid positions with the same backing index are the same
/// position.
pub proof fn lemma_grid_index_injective(width: int, wx1: int, wy1: int, wx2: int, wy2: int)
    requires
        0 <= wx1 < width,
        0 <= wx2 < width,
        wy1 >= 0,
        wy2 >= 0,
        wy1 * width + wx1 == wy2 * width + wx2,
    ensures
        wx1 == wx2,
        wy1 == wy2,
{
    assert(wx1 == wx2 && wy1 == wy2) by (nonlinear_arith)
        requires
            0 <= wx1 < width,
            0 <= wx2 < width,
            wy1 >= 0,
            wy2 >= 0,
            wy1 * width + wx1 == wy2 * width + wx2,
    ;
}

/// The bucket at backing position `(wx, wy)` of a `width` by `height` grid;
/// empty outside the grid.
pub open spec fn grid_at(
    buckets: Seq<Vec<EntityId>>,
    width: int,
    height: int,
    wx: int,
    wy: int,
) -> Seq<EntityId> {
    if 0 <= wx < width && 0 <= wy < height {
        buckets[wy * width + wx]@
    } else {
        Seq::empty()
    }
}

/// Replacing the bucket at one in-range position changes that position's
/// bucket and no other.
pub proof fn lemma_grid_update(
    buckets: Seq<Vec<EntityId>>,
    width: int,
    height: int,
    wx: int,
    wy: int,
    v: Vec<EntityId>,
)
    requires
        0 <= wx < width,
        0 <= wy < height,
        buckets.len() == width * height,
    ensures
        forall|ox: int, oy: int|
            #[trigger] grid_at(buckets.update(wy * width + wx, v), width, height, ox, oy) == if ox
                == wx && oy == wy {
                v@
            } else {
                grid_at(buckets, width, height, ox, oy)
            },
{
    assert(0 <= wy * width + wx < width * height) by (nonlinear_arith)
        requires
            0 <= wx < width,
            0 <= wy < height,
    ;
    assert forall|ox: int, oy: int|
        #[trigger] grid_at(buckets.update(wy * width + wx, v), width, height, ox, oy) == if ox == wx
            && oy == wy {
            v@
        } else {
            grid_at(buckets, width, height, ox, oy)
        } by {
        if 0 <= ox < width && 0 <= oy < height {
            assert(0 <= oy * width + ox < width * height) by (nonlinear_arith)
                requires
                    0 <= ox < width,
                    0 <= oy < height,
            ;
            if oy * width + ox == wy * width + wx {
                lemma_grid_index_injective(width, ox, oy, wx, wy);
            }
        }
    }
}

/// The cell index of world coordinate `v` for bucket size `size`.
pub open spec fn cell_of(v: int, size: int) -> int {
    v / size
}

/// Whether cell `(cx, cy)` is touched by the box of `aabb` placed at `t`, for
/// bucket sizes `bw` by `bh`: both cell coordinates lie in the inclusive
/// range spanned by the box corners, so a zero-size box still touches one
/// cell.
pub open spec fn covers(bw: int, bh: int, t: Transform, aabb: AABB, cx: int, cy: int) -> bool {
    &&& cell_of(t.x + aabb.dx, bw) <= cx <= cell_of(t.x + aabb.dx + aabb.width, bw)
    &&& cell_of(t.y + aabb.dy, bh) <= cy <= cell_of(t.y + aabb.dy + aabb.height, bh)
}


/// The greatest of four values.
pub open spec fn max4(a: int, b: int, c: int, d: int) -> int {
    let m1 = if a >= b {
        a
    } else {
        b
    };
    let m2 = if c >= d {
        c
    } else {
        d
    };
    if m1 >= m2 {
        m1
    } else {
        m2
    }
}

/// The dimension the grid reaches by doubling `w` until it exceeds `need`.
pub open spec fn fit_dim(w: int, need: int) -> int
    decreases (if need >= w {
        need - w + 1
    } else {
        0
    }),
{
    if w < 1 {
        w
    } else if w > need {
        w
    } else {
        fit_dim(2 * w, need)
    }
}

/// The greatest backing index the box of `aabb` placed at `t` asks of the
/// grid, over both axes.
pub open spec fn needed_span(bw: int, bh: int, t: Transform, aabb: AABB) -> int {
    max4(
        zig(cell_of(t.x + aabb.dx, bw)),
        zig(cell_of(t.x + aabb.dx + aabb.width, bw)),
        zig(cell_of(t.y + aabb.dy, bh)),
        zig(cell_of(t.y + aabb.dy + aabb.height, bh)),
    )
}

/// The broad-phase grid.  The fields are public for reading; mutate the
/// structure only through its methods, which keep the grid well-formed.
pub struct SpatialBuckets {
    pub buckets: Vec<Vec<EntityId>>,
    pub bucket_width: i64,
    pub bucket_height: i64,
    pub width: usize,
    pub height: usize,
}

impl SpatialBuckets {
    /// The backing array holds exactly one bucket per grid position, the
    /// dimensions stay within the growth bound, and the bucket sizes are
    /// positive.
    pub open spec fn wf(&self) -> bool {
        &&& 1 <= self.width <= 0xC000
        &&& self.height == self.width
        &&& self.buckets@.len() == self.width * self.height
        &&& self.bucket_width >= 1
        &&& self.bucket_height >= 1
    }

    /// The handles in the bucket of cell `(cx, cy)`; empty when the cell is
    /// outside the grown part of the grid.
    pub open spec fn cell_seq(&self, cx: int, cy: int) -> Seq<EntityId> {
        grid_at(self.buckets@, self.width as int, self.height as int, zig(cx), zig(cy))
    }

    /// Cell `(cx, cy)` is touched by the box of `aabb` placed at `t`, under
    /// this grid's bucket sizes.
    pub open spec fn covers_cell(&self, t: Transform, aabb: AABB, cx: int, cy: int) -> bool {
        covers(self.bucket_width as int, self.bucket_height as int, t, aabb, cx, cy)
    }

    /// A one-by-one grid with one empty bucket.
    pub fn new(bucket_width: i64, bucket_height: i64) -> (r: SpatialBuckets)
        requires
            bucket_width >= 1,
            bucket_height >= 1,
        ensures
            r.wf(),
            r.bucket_width == bucket_width,
            r.bucket_height == bucket_height,
            r.width == 1,
            r.height == 1,
            forall|cx: int, cy: int| #[trigger] r.cell_seq(cx, cy) == Seq::<EntityId>::empty(),
    {
        let mut buckets: Vec<Vec<EntityId>> = Vec::new();
        buckets.push(Vec::new());
        let r = SpatialBuckets { buckets, bucket_width, bucket_height, width: 1, height: 1 };
        proof {
            assert forall|cx: int, cy: int| #[trigger] r.cell_seq(cx, cy) == Seq::<
                EntityId,
            >::empty() by {
                if 0 <= zig(cx) < 1 && 0 <= zig(cy) < 1 {
                    assert(r.buckets@[0]@ == Seq::<EntityId>::empty());
                }
            }
        }
        r
    }

    /// The cell containing the world point `(x, y)`: floor division by the
    /// bucket sizes.
    pub fn point_to_cell(&self, x: i64, y: i64) -> (c: (i64, i64))
        requires
            self.wf(),
            x > i64::MIN,
            y > i64::MIN,
        ensures
            c.0 == cell_of(x as int, self.bucket_width as int),
            c.1 == cell_of(y as int, self.bucket_height as int),
    {
        let cx = crate::num::floor_div(x, self.bucket_width);
        let cy = crate::num::floor_div(y, self.bucket_height);
        (cx, cy)
    }

    /// The zig-zag fold of one cell coordinate onto a nonnegative backing
    /// index.
    pub fn wrap_point(&self, point: i64) -> (r: usize)
        requires
            -0x20000000 <= point <= 0x20000000,
        ensures
            r == zig(point as int),
    {
        let mut p = point * 2;
        if p < 0 {
            p = -p;
            p = p - 1;
        }
        p as usize
    }

    /// Both cell coordinates folded onto backing indices.
    pub fn wrap_cell(&self, x: i64, y: i64) -> (r: (usize, usize))
        requires
            -0x20000000 <= x <= 0x20000000,
            -0x20000000 <= y <= 0x20000000,
        ensures
            r.0 == zig(x as int),
            r.1 == zig(y as int),
    {
        (self.wrap_point(x), self.wrap_point(y))
    }

    /// Doubles the grid in both dimensions.  Every entry keeps its cell:
    /// the cell-to-bucket map is unchanged, and the new cells are empty.
    pub fn resize(&mut self)
        requires
            old(self).wf(),
            old(self).width <= 0x6000,
            old(self).height <= 0x6000,
        ensures
            final(self).wf(),
            final(self).width == 2 * old(self).width,
            final(self).height == 2 * old(self).height,
            final(self).bucket_width == old(self).bucket_width,
            final(self).bucket_height == old(self).bucket_height,
            forall|cx: int, cy: int| #[trigger]
                final(self).cell_seq(cx, cy) == old(self).cell_seq(cx, cy),
    {
        let w = self.width;
        let h = self.height;
        proof {
            assert(w * h <= 0x24000000 && 4 * (w * h) == (2 * w) * (2 * h) && (2 * w) * (2 * h)
                <= 0x90000000) by (nonlinear_arith)
                requires
                    1 <= w <= 0x6000,
                    1 <= h <= 0x6000,
            ;
        }
        let neww = w * 2;
        let newh = h * 2;
        let total = neww * newh;
        let mut nb: Vec<Vec<EntityId>> = Vec::new();
        while nb.len() < total
            invariant
                nb@.len() <= total,
                forall|k: int| 0 <= k < nb@.len() ==> (#[trigger] nb@[k])@ == Seq::<
                    EntityId,
                >::empty(),
            decreases total - nb@.len(),
        {
            nb.push(Vec::new());
        }
        proof {
            assert forall|ox: int, oy: int| #[trigger]
                grid_at(nb@, 2 * w as int, 2 * h as int, ox, oy) == Seq::<EntityId>::empty() by {
                if 0 <= ox < 2 * w && 0 <= oy < 2 * h {
                    assert(0 <= oy * (2 * w) + ox < (2 * w) * (2 * h)) by (nonlinear_arith)
                        requires
                            0 <= ox < 2 * w,
                            0 <= oy < 2 * h,
                    ;
                }
            }
        }
        let ghost orig = self.buckets@;
        let mut wy: usize = 0;
        while wy < h
            invariant
                0 <= wy <= h,
                self.wf(),
                self.width == w,
                self.height == h,
                self.bucket_width == old(self).bucket_width,
                self.bucket_height == old(self).bucket_height,
                orig == old(self).buckets@,
                nb@.len() == (2 * w) * (2 * h),
                neww == 2 * w,
                newh == 2 * h,
                1 <= w <= 0x6000,
                1 <= h <= 0x6000,
                forall|ox: int, oy: int|
                    oy >= wy ==> #[trigger] grid_at(self.buckets@, w as int, h as int, ox, oy)
                        == grid_at(orig, w as int, h as int, ox, oy),
                forall|ox: int, oy: int|
                    oy < wy ==> #[trigger] grid_at(nb@, 2 * w as int, 2 * h as int, ox, oy)
                        == grid_at(orig, w as int, h as int, ox, oy),
                forall|ox: int, oy: int|
                    (oy >= wy || ox >= w) ==> #[trigger] grid_at(
                        nb@,
                        2 * w as int,
                        2 * h as int,
                        ox,
                        oy,
                    ) == Seq::<EntityId>::empty(),
            decreases h - wy,
        {
            let mut wx: usize = 0;
            while wx < w
                invariant
                    0 <= wy < h,
                    0 <= wx <= w,
                    self.wf(),
                    self.width == w,
                    self.height == h,
                    self.bucket_width == old(self).bucket_width,
                    self.bucket_height == old(self).bucket_height,
                    orig == old(self).buckets@,
                    nb@.len() == (2 * w) * (2 * h),
                    neww == 2 * w,
                    newh == 2 * h,
                    1 <= w <= 0x6000,
                    1 <= h <= 0x6000,
                    forall|ox: int, oy: int|
                        (oy > wy || (oy == wy && ox >= wx)) ==> #[trigger] grid_at(
                            self.buckets@,
                            w as int,
                            h as int,
                            ox,
                            oy,
                        ) == grid_at(orig, w as int, h as int, ox, oy),
                    forall|ox: int, oy: int|
                        (oy < wy || (oy == wy && 0 <= ox < wx)) ==> #[trigger] grid_at(
                            nb@,
                            2 * w as int,
                            2 * h as int,
                            ox,
                            oy,
                        ) == grid_at(orig, w as int, h as int, ox, oy),
                    forall|ox: int, oy: int|
                        (oy > wy || (oy == wy && ox >= wx) || ox >= w) ==> #[trigger] grid_at(
                            nb@,
                            2 * w as int,
                            2 * h as int,
                            ox,
                            oy,
                        ) == Seq::<EntityId>::empty(),
                decreases w - wx,
            {
                proof {
                    assert(0 <= wy * w + wx < w * h && 0 <= wy * (2 * w) + wx < (2 * w) * (2 * h)
                        && w * h <= 0x24000000 && (2 * w) * (2 * h) <= 0x90000000 && wy * (2
                        * w) == wy * (2 * w)) by (nonlinear_arith)
                        requires
                            0 <= wx < w,
                            0 <= wy < h,
                            w <= 0x6000,
                            h <= 0x6000,
                    ;
                    assert(wy * neww == wy * (2 * w));
                }
                let oi = wy * w + wx;
                let ni = wy * neww + wx;
                let ghost nb_before = nb@;
                let ghost sb_before = self.buckets@;
                let a = &mut self.buckets[oi];
                let b = &mut nb[ni];
                core::mem::swap(a, b);
                proof {
                    assert(nb@ =~= nb_before.update(ni as int, sb_before[oi as int]));
                    assert(self.buckets@ =~= sb_before.update(oi as int, nb_before[ni as int]));
                    lemma_grid_update(
                        nb_before,
                        2 * w as int,
                        2 * h as int,
                        wx as int,
                        wy as int,
                        sb_before[oi as int],
                    );
                    lemma_grid_update(
                        sb_before,
                        w as int,
                        h as int,
                        wx as int,
                        wy as int,
                        nb_before[ni as int],
                    );
                    assert(grid_at(sb_before, w as int, h as int, wx as int, wy as int)
                        == sb_before[oi as int]@);
                }
                wx = wx + 1;
            }
            wy = wy + 1;
        }
        self.buckets = nb;
        self.width = neww;
        self.height = newh;
        proof {
            assert(self.buckets@.len() == self.width * self.height);
            assert forall|cx: int, cy: int| #[trigger]
                final(self).cell_seq(cx, cy) == old(self).cell_seq(cx, cy) by {
                lemma_zig_nonneg(cx);
                lemma_zig_nonneg(cy);
                let ox = zig(cx);
                let oy = zig(cy);
                if ox < w && oy < h {
                    assert(grid_at(nb@, 2 * w as int, 2 * h as int, ox, oy) == grid_at(
                        orig,
                        w as int,
                        h as int,
                        ox,
                        oy,
                    ));
                } else {
                    assert(grid_at(nb@, 2 * w as int, 2 * h as int, ox, oy) == Seq::<
                        EntityId,
                    >::empty());
                    assert(grid_at(orig, w as int, h as int, ox, oy) == Seq::<EntityId>::empty());
                }
            }
        }
    }
}


/// Removes every occurrence of `id` from `v`, keeping the order of the rest.
fn remove_id_from(v: &mut Vec<EntityId>, id: EntityId)
    ensures
        final(v)@ == old(v)@.filter(|e: EntityId| e != id),
{
    let ghost pred = |e: EntityId| e != id;
    let mut i: usize = 0;
    let ghost mut k: int = 0;
    proof {
        assert(old(v)@.take(0).filter(pred) =~= Seq::<EntityId>::empty());
        assert(v@ =~= old(v)@.take(0).filter(pred) + old(v)@.skip(0));
    }
    while i < v.len()
        invariant
            0 <= k <= old(v)@.len(),
            v@ == old(v)@.take(k).filter(pred) + old(v)@.skip(k),
            i == old(v)@.take(k).filter(pred).len(),
            pred == (|e: EntityId| e != id),
        decreases old(v)@.len() - k,
    {
        proof {
            assert(v@.len() == i + old(v)@.skip(k).len());
            assert(v@[i as int] == old(v)@.skip(k)[0]);
            assert(old(v)@.skip(k)[0] == old(v)@[k]);
            assert(old(v)@.take(k + 1).drop_last() =~= old(v)@.take(k));
            assert(old(v)@.take(k + 1) =~= old(v)@.take(k).push(old(v)@[k]));
            lemma_filter_push(old(v)@.take(k), old(v)@[k], pred);
        }
        if v[i] == id {
            v.remove(i);
            proof {
                assert(v@ =~= old(v)@.take(k + 1).filter(pred) + old(v)@.skip(k + 1));
            }
        } else {
            i = i + 1;
            proof {
                assert(v@ =~= old(v)@.take(k + 1).filter(pred) + old(v)@.skip(k + 1));
            }
        }
        proof {
            k = k + 1;
        }
    }
    proof {
        assert(old(v)@.skip(k).len() == 0);
        assert(k == old(v)@.len());
        assert(old(v)@.take(k) =~= old(v)@);
    }
}

/// Whether `v` holds `id`.
fn contains_id(v: &Vec<EntityId>, id: EntityId) -> (r: bool)
    ensures
        r == v@.contains(id),
{
    let mut i: usize = 0;
    while i < v.len()
        invariant
            0 <= i <= v@.len(),
            forall|k: int| 0 <= k < i ==> v@[k] != id,
        decreases v@.len() - i,
    {
        if v[i] == id {
            proof {
                assert(v@[i as int] == id);
            }
            return true;
        }
        i = i + 1;
    }
    false
}

/// Within an inclusive cell range, the zig-zag index of any cell is bounded
/// by the index of one of the two ends.
pub proof fn lemma_zig_range(lo: int, c: int, hi: int)
    requires
        lo <= c <= hi,
    ensures
        zig(c) <= zig(lo) || zig(c) <= zig(hi),
{
}

impl SpatialBuckets {
    /// Doubles the grid until the given cell rectangle lies inside it.  The
    /// cell-to-bucket map is unchanged.
    fn grow_to_fit(&mut self, cxmin: i64, cymin: i64, cxmax: i64, cymax: i64)
        requires
            old(self).wf(),
            -11264 <= cxmin <= 11264,
            -11264 <= cxmax <= 11264,
            -11264 <= cymin <= 11264,
            -11264 <= cymax <= 11264,
        ensures
            final(self).wf(),
            final(self).bucket_width == old(self).bucket_width,
            final(self).bucket_height == old(self).bucket_height,
            final(self).width >= old(self).width,
            final(self).height >= old(self).height,
            forall|cx: int, cy: int| #[trigger]
                final(self).cell_seq(cx, cy) == old(self).cell_seq(cx, cy),
            zig(cxmin as int) < final(self).width,
            zig(cxmax as int) < final(self).width,
            zig(cymin as int) < final(self).height,
            zig(cymax as int) < final(self).height,
            final(self).width == fit_dim(
                old(self).width as int,
                max4(zig(cxmin as int), zig(cxmax as int), zig(cymin as int), zig(cymax as int)),
            ),
            final(self).height == final(self).width,
    {
        let mut fits = self.wrap_point(cxmin) < self.width && self.wrap_point(cxmax) < self.width
            && self.wrap_point(cymin) < self.height && self.wrap_point(cymax) < self.height;
        while !fits
            invariant
                self.wf(),
                self.bucket_width == old(self).bucket_width,
                self.bucket_height == old(self).bucket_height,
                self.width >= old(self).width,
                self.height >= old(self).height,
                -11264 <= cxmin <= 11264,
                -11264 <= cxmax <= 11264,
                -11264 <= cymin <= 11264,
                -11264 <= cymax <= 11264,
                forall|cx: int, cy: int| #[trigger]
                    self.cell_seq(cx, cy) == old(self).cell_seq(cx, cy),
                fits == (zig(cxmin as int) < self.width && zig(cxmax as int) < self.width && zig(
                    cymin as int,
                ) < self.height && zig(cymax as int) < self.height),
                fit_dim(
                    self.width as int,
                    max4(
                        zig(cxmin as int),
                        zig(cxmax as int),
                        zig(cymin as int),
                        zig(cymax as int),
                    ),
                ) == fit_dim(
                    old(self).width as int,
                    max4(
                        zig(cxmin as int),
                        zig(cxmax as int),
                        zig(cymin as int),
                        zig(cymax as int),
                    ),
                ),
            decreases 0x30000 - self.width - self.height,
        {
            proof {
                let need = max4(
                    zig(cxmin as int),
                    zig(cxmax as int),
                    zig(cymin as int),
                    zig(cymax as int),
                );
                assert(need >= self.width);
                assert(fit_dim(self.width as int, need) == fit_dim(2 * self.width as int, need));
            }
            proof {
                assert(zig(cxmin as int) <= 22529 && zig(cxmax as int) <= 22529 && zig(
                    cymin as int,
                ) <= 22529 && zig(cymax as int) <= 22529);
                assert(self.width <= 0x6000);
            }
            self.resize();
            fits = self.wrap_point(cxmin) < self.width && self.wrap_point(cxmax) < self.width
                && self.wrap_point(cymin) < self.height && self.wrap_point(cymax) < self.height;
        }
    }

    /// Appends `id` to the bucket of every cell touched by the box of `aabb`
    /// placed at `transform`, growing the grid first so the whole box is in
    /// range.  Every other bucket is unchanged.
    pub fn insert(&mut self, id: EntityId, transform: &Transform, aabb: &AABB)
        requires
            old(self).wf(),
            transform.wf(),
            aabb.wf(),
        ensures
            final(self).wf(),
            final(self).bucket_width == old(self).bucket_width,
            final(self).bucket_height == old(self).bucket_height,
            final(self).width >= old(self).width,
            final(self).height >= old(self).height,
            forall|cx: int, cy: int|
                old(self).covers_cell(*transform, *aabb, cx, cy) ==> #[trigger] final(self).cell_seq(cx, cy) == old(self).cell_seq(cx, cy).push(id),
            final(self).width == fit_dim(
                old(self).width as int,
                needed_span(
                    old(self).bucket_width as int,
                    old(self).bucket_height as int,
                    *transform,
                    *aabb,
                ),
            ),
            final(self).height == final(self).width,
            forall|cx: int, cy: int|
                !old(self).covers_cell(*transform, *aabb, cx, cy) ==> #[trigger] final(self).cell_seq(cx, cy) == old(self).cell_seq(cx, cy),
    {
        let xmin = transform.x + aabb.dx;
        let ymin = transform.y + aabb.dy;
        let xmax = xmin + aabb.width;
        let ymax = ymin + aabb.height;
        let (cxmin, cymin) = self.point_to_cell(xmin, ymin);
        let (cxmax, cymax) = self.point_to_cell(xmax, ymax);
        proof {
            lemma_floor_div_bounds(xmin as int, self.bucket_width as int);
            lemma_floor_div_bounds(xmax as int, self.bucket_width as int);
            lemma_floor_div_bounds(ymin as int, self.bucket_height as int);
            lemma_floor_div_bounds(ymax as int, self.bucket_height as int);
            vstd::arithmetic::div_mod::lemma_div_is_ordered(
                xmin as int,
                xmax as int,
                self.bucket_width as int,
            );
            vstd::arithmetic::div_mod::lemma_div_is_ordered(
                ymin as int,
                ymax as int,
                self.bucket_height as int,
            );
        }
        self.grow_to_fit(cxmin, cymin, cxmax, cymax);
        let ghost mid = *self;
        let ghost t = *transform;
        let ghost bx = *aabb;
        let mut cx = cxmin;
        while cx <= cxmax
            invariant
                cxmin <= cx <= cxmax + 1,
                self.wf(),
                self.width == mid.width,
                self.height == mid.height,
                self.bucket_width == mid.bucket_width,
                self.bucket_height == mid.bucket_height,
                mid.wf(),
                mid.bucket_width == old(self).bucket_width,
                mid.bucket_height == old(self).bucket_height,
                cxmin == cell_of(t.x + bx.dx, mid.bucket_width as int),
                cxmax == cell_of(t.x + bx.dx + bx.width, mid.bucket_width as int),
                cymin == cell_of(t.y + bx.dy, mid.bucket_height as int),
                cymax == cell_of(t.y + bx.dy + bx.height, mid.bucket_height as int),
                cymin <= cymax,
                -11264 <= cxmin <= 11264,
                -11264 <= cxmax <= 11264,
                -11264 <= cymin <= 11264,
                -11264 <= cymax <= 11264,
                zig(cxmin as int) < mid.width,
                zig(cxmax as int) < mid.width,
                zig(cymin as int) < mid.height,
                zig(cymax as int) < mid.height,
                forall|a: int, b: int| #[trigger] mid.cell_seq(a, b) == old(self).cell_seq(a, b),
                forall|a: int, b: int|
                    (mid.covers_cell(t, bx, a, b) && a < cx) ==> #[trigger] self.cell_seq(a, b)
                        == mid.cell_seq(a, b).push(id),
                forall|a: int, b: int|
                    !(mid.covers_cell(t, bx, a, b) && a < cx) ==> #[trigger] self.cell_seq(a, b)
                        == mid.cell_seq(a, b),
            decreases cxmax + 1 - cx,
        {
            let mut cy = cymin;
            while cy <= cymax
                invariant
                    cxmin <= cx <= cxmax,
                    cymin <= cy <= cymax + 1,
                    self.wf(),
                    self.width == mid.width,
                    self.height == mid.height,
                    self.bucket_width == mid.bucket_width,
                    self.bucket_height == mid.bucket_height,
                    mid.wf(),
                    cxmin == cell_of(t.x + bx.dx, mid.bucket_width as int),
                    cxmax == cell_of(t.x + bx.dx + bx.width, mid.bucket_width as int),
                    cymin == cell_of(t.y + bx.dy, mid.bucket_height as int),
                    cymax == cell_of(t.y + bx.dy + bx.height, mid.bucket_height as int),
                    -11264 <= cxmin <= 11264,
                    -11264 <= cxmax <= 11264,
                    -11264 <= cymin <= 11264,
                    -11264 <= cymax <= 11264,
                    zig(cxmin as int) < mid.width,
                    zig(cxmax as int) < mid.width,
                    zig(cymin as int) < mid.height,
                    zig(cymax as int) < mid.height,
                    forall|a: int, b: int|
                        (mid.covers_cell(t, bx, a, b) && (a < cx || (a == cx && b < cy)))
                            ==> #[trigger] self.cell_seq(a, b) == mid.cell_seq(a, b).push(id),
                    forall|a: int, b: int|
                        !(mid.covers_cell(t, bx, a, b) && (a < cx || (a == cx && b < cy)))
                            ==> #[trigger] self.cell_seq(a, b) == mid.cell_seq(a, b),
                decreases cymax + 1 - cy,
            {
                proof {
                    lemma_zig_range(cxmin as int, cx as int, cxmax as int);
                    lemma_zig_range(cymin as int, cy as int, cymax as int);
                    lemma_zig_nonneg(cx as int);
                    lemma_zig_nonneg(cy as int);
                }
                let (wx, wy) = self.wrap_cell(cx, cy);
                proof {
                    assert(0 <= wy * self.width + wx < self.width * self.height && self.width
                        * self.height <= 0x90000000) by (nonlinear_arith)
                        requires
                            0 <= wx < self.width,
                            0 <= wy < self.height,
                            self.width <= 0xC000,
                            self.height <= 0xC000,
                    ;
                }
                let idx = wy * self.width + wx;
                let ghost pre = *self;
                let bucket = &mut self.buckets[idx];
                bucket.push(id);
                proof {
                    let w = mid.width as int;
                    let h = mid.height as int;
                    let v = self.buckets@[idx as int];
                    assert(self.buckets@ =~= pre.buckets@.update(wy * w + wx, v));
                    assert(v@ == pre.buckets@[idx as int]@.push(id));
                    lemma_grid_update(pre.buckets@, w, h, wx as int, wy as int, v);
                    assert(grid_at(pre.buckets@, w, h, wx as int, wy as int)
                        == pre.buckets@[idx as int]@);
                    assert(pre.cell_seq(cx as int, cy as int) == grid_at(
                        pre.buckets@,
                        w,
                        h,
                        wx as int,
                        wy as int,
                    ));
                    assert(pre.cell_seq(cx as int, cy as int) == mid.cell_seq(cx as int, cy as int));
                    assert forall|a: int, b: int|
                        (mid.covers_cell(t, bx, a, b) && (a < cx || (a == cx && b < cy + 1)))
                            implies #[trigger] self.cell_seq(a, b) == mid.cell_seq(a, b).push(
                        id,
                    ) by {
                        if a == cx && b == cy {
                            assert(self.cell_seq(a, b) == v@);
                        } else if zig(a) == zig(cx as int) && zig(b) == zig(cy as int) {
                            lemma_zig_injective(a, cx as int);
                            lemma_zig_injective(b, cy as int);
                        } else {
                            assert(self.cell_seq(a, b) == grid_at(pre.buckets@, w, h, zig(a), zig(b)));
                            assert(pre.cell_seq(a, b) == mid.cell_seq(a, b).push(id));
                        }
                    }
                    assert forall|a: int, b: int|
                        !(mid.covers_cell(t, bx, a, b) && (a < cx || (a == cx && b < cy + 1)))
                            implies #[trigger] self.cell_seq(a, b) == mid.cell_seq(a, b) by {
                        if zig(a) == zig(cx as int) && zig(b) == zig(cy as int) {
                            lemma_zig_injective(a, cx as int);
                            lemma_zig_injective(b, cy as int);
                        } else {
                            assert(self.cell_seq(a, b) == grid_at(pre.buckets@, w, h, zig(a), zig(b)));
                            assert(pre.cell_seq(a, b) == mid.cell_seq(a, b));
                        }
                    }
                }
                cy = cy + 1;
            }
            cx = cx + 1;
        }
    }

    /// Removes every occurrence of `id` from the bucket of every cell touched
    /// by the box of `aabb` placed at `transform`, growing the grid first.
    /// Removing an absent handle leaves the bucket as it was.
    pub fn remove(&mut self, id: EntityId, transform: &Transform, aabb: &AABB)
        requires
            old(self).wf(),
            transform.wf(),
            aabb.wf(),
        ensures
            final(self).wf(),
            final(self).bucket_width == old(self).bucket_width,
            final(self).bucket_height == old(self).bucket_height,
            final(self).width >= old(self).width,
            final(self).height >= old(self).height,
            forall|cx: int, cy: int|
                old(self).covers_cell(*transform, *aabb, cx, cy) ==> #[trigger] final(self).cell_seq(cx, cy) == old(self).cell_seq(cx, cy).filter(|e: EntityId| e != id),
            final(self).width == fit_dim(
                old(self).width as int,
                needed_span(
                    old(self).bucket_width as int,
                    old(self).bucket_height as int,
                    *transform,
                    *aabb,
                ),
            ),
            final(self).height == final(self).width,
            forall|cx: int, cy: int|
                !old(self).covers_cell(*transform, *aabb, cx, cy) ==> #[trigger] final(self).cell_seq(cx, cy) == old(self).cell_seq(cx, cy),
    {
        let xmin = transform.x + aabb.dx;
        let ymin = transform.y + aabb.dy;
        let xmax = xmin + aabb.width;
        let ymax = ymin + aabb.height;
        let (cxmin, cymin) = self.point_to_cell(xmin, ymin);
        let (cxmax, cymax) = self.point_to_cell(xmax, ymax);
        proof {
            lemma_floor_div_bounds(xmin as int, self.bucket_width as int);
            lemma_floor_div_bounds(xmax as int, self.bucket_width as int);
            lemma_floor_div_bounds(ymin as int, self.bucket_height as int);
            lemma_floor_div_bounds(ymax as int, self.bucket_height as int);
            vstd::arithmetic::div_mod::lemma_div_is_ordered(
                xmin as int,
                xmax as int,
                self.bucket_width as int,
            );
            vstd::arithmetic::div_mod::lemma_div_is_ordered(
                ymin as int,
                ymax as int,
                self.bucket_height as int,
            );
        }
        self.grow_to_fit(cxmin, cymin, cxmax, cymax);
        let ghost mid = *self;
        let ghost t = *transform;
        let ghost bx = *aabb;
        let mut cx = cxmin;
        while cx <= cxmax
            invariant
                cxmin <= cx <= cxmax + 1,
                self.wf(),
                self.width == mid.width,
                self.height == mid.height,
                self.bucket_width == mid.bucket_width,
                self.bucket_height == mid.bucket_height,
                mid.wf(),
                mid.bucket_width == old(self).bucket_width,
                mid.bucket_height == old(self).bucket_height,
                cxmin == cell_of(t.x + bx.dx, mid.bucket_width as int),
                cxmax == cell_of(t.x + bx.dx + bx.width, mid.bucket_width as int),
                cymin == cell_of(t.y + bx.dy, mid.bucket_height as int),
                cymax == cell_of(t.y + bx.dy + bx.height, mid.bucket_height as int),
                cymin <= cymax,
                -11264 <= cxmin <= 11264,
                -11264 <= cxmax <= 11264,
                -11264 <= cymin <= 11264,
                -11264 <= cymax <= 11264,
                zig(cxmin as int) < mid.width,
                zig(cxmax as int) < mid.width,
                zig(cymin as int) < mid.height,
                zig(cymax as int) < mid.height,
                forall|a: int, b: int| #[trigger] mid.cell_seq(a, b) == old(self).cell_seq(a, b),
                forall|a: int, b: int|
                    (mid.covers_cell(t, bx, a, b) && a < cx) ==> #[trigger] self.cell_seq(a, b)
                        == mid.cell_seq(a, b).filter(|e: EntityId| e != id),
                forall|a: int, b: int|
                    !(mid.covers_cell(t, bx, a, b) && a < cx) ==> #[trigger] self.cell_seq(a, b)
                        == mid.cell_seq(a, b),
            decreases cxmax + 1 - cx,
        {
            let mut cy = cymin;
            while cy <= cymax
                invariant
                    cxmin <= cx <= cxmax,
                    cymin <= cy <= cymax + 1,
                    self.wf(),
                    self.width == mid.width,
                    self.height == mid.height,
                    self.bucket_width == mid.bucket_width,
                    self.bucket_height == mid.bucket_height,
                    mid.wf(),
                    cxmin == cell_of(t.x + bx.dx, mid.bucket_width as int),
                    cxmax == cell_of(t.x + bx.dx + bx.width, mid.bucket_width as int),
                    cymin == cell_of(t.y + bx.dy, mid.bucket_height as int),
                    cymax == cell_of(t.y + bx.dy + bx.height, mid.bucket_height as int),
                    -11264 <= cxmin <= 11264,
                    -11264 <= cxmax <= 11264,
                    -11264 <= cymin <= 11264,
                    -11264 <= cymax <= 11264,
                    zig(cxmin as int) < mid.width,
                    zig(cxmax as int) < mid.width,
                    zig(cymin as int) < mid.height,
                    zig(cymax as int) < mid.height,
                    forall|a: int, b: int|
                        (mid.covers_cell(t, bx, a, b) && (a < cx || (a == cx && b < cy)))
                            ==> #[trigger] self.cell_seq(a, b) == mid.cell_seq(a, b).filter(
                            |e: EntityId| e != id,
                        ),
                    forall|a: int, b: int|
                        !(mid.covers_cell(t, bx, a, b) && (a < cx || (a == cx && b < cy)))
                            ==> #[trigger] self.cell_seq(a, b) == mid.cell_seq(a, b),
                decreases cymax + 1 - cy,
            {
                proof {
                    lemma_zig_range(cxmin as int, cx as int, cxmax as int);
                    lemma_zig_range(cymin as int, cy as int, cymax as int);
                    lemma_zig_nonneg(cx as int);
                    lemma_zig_nonneg(cy as int);
                }
                let (wx, wy) = self.wrap_cell(cx, cy);
                proof {
                    assert(0 <= wy * self.width + wx < self.width * self.height && self.width
                        * self.height <= 0x90000000) by (nonlinear_arith)
                        requires
                            0 <= wx < self.width,
                            0 <= wy < self.height,
                            self.width <= 0xC000,
                            self.height <= 0xC000,
                    ;
                }
                let idx = wy * self.width + wx;
                let ghost pre = *self;
                let bucket = &mut self.buckets[idx];
                remove_id_from(bucket, id);
                proof {
                    let w = mid.width as int;
                    let h = mid.height as int;
                    let v = self.buckets@[idx as int];
                    assert(self.buckets@ =~= pre.buckets@.update(wy * w + wx, v));
                    assert(v@ == pre.buckets@[idx as int]@.filter(|e: EntityId| e != id));
                    lemma_grid_update(pre.buckets@, w, h, wx as int, wy as int, v);
                    assert(grid_at(pre.buckets@, w, h, wx as int, wy as int)
                        == pre.buckets@[idx as int]@);
                    assert(pre.cell_seq(cx as int, cy as int) == grid_at(
                        pre.buckets@,
                        w,
                        h,
                        wx as int,
                        wy as int,
                    ));
                    assert(pre.cell_seq(cx as int, cy as int) == mid.cell_seq(cx as int, cy as int));
                    assert forall|a: int, b: int|
                        (mid.covers_cell(t, bx, a, b) && (a < cx || (a == cx && b < cy + 1)))
                            implies #[trigger] self.cell_seq(a, b) == mid.cell_seq(a, b).filter(
                        |e: EntityId| e != id,
                    ) by {
                        if a == cx && b == cy {
                            assert(self.cell_seq(a, b) == v@);
                        } else if zig(a) == zig(cx as int) && zig(b) == zig(cy as int) {
                            lemma_zig_injective(a, cx as int);
                            lemma_zig_injective(b, cy as int);
                        } else {
                            assert(self.cell_seq(a, b) == grid_at(pre.buckets@, w, h, zig(a), zig(b)));
                            assert(pre.cell_seq(a, b) == mid.cell_seq(a, b).filter(
                                |e: EntityId| e != id,
                            ));
                        }
                    }
                    assert forall|a: int, b: int|
                        !(mid.covers_cell(t, bx, a, b) && (a < cx || (a == cx && b < cy + 1)))
                            implies #[trigger] self.cell_seq(a, b) == mid.cell_seq(a, b) by {
                        if zig(a) == zig(cx as int) && zig(b) == zig(cy as int) {
                            lemma_zig_injective(a, cx as int);
                            lemma_zig_injective(b, cy as int);
                        } else {
                            assert(self.cell_seq(a, b) == grid_at(pre.buckets@, w, h, zig(a), zig(b)));
                            assert(pre.cell_seq(a, b) == mid.cell_seq(a, b));
                        }
                    }
                }
                cy = cy + 1;
            }
            cx = cx + 1;
        }
    }
}


/// Some cell covered by the box and ordered before `(cx, cy)` (column-major:
/// full columns first, then the current column up to `cy`) holds `e`.
pub open spec fn in_cells_before(
    g: SpatialBuckets,
    t: Transform,
    aabb: AABB,
    cx: int,
    cy: int,
    e: EntityId,
) -> bool {
    exists|a: int, b: int|
        g.covers_cell(t, aabb, a, b) && (a < cx || (a == cx && b < cy)) && (#[trigger] g.cell_seq(
            a,
            b,
        )).contains(e)
}

impl SpatialBuckets {
    /// `e` is a handle other than `id` that appears in some cell touched by
    /// the box of `aabb` placed at `t`.
    pub open spec fn in_nearby(&self, id: EntityId, t: Transform, aabb: AABB, e: EntityId) -> bool {
        e != id && exists|cx: int, cy: int|
            self.covers_cell(t, aabb, cx, cy) && (#[trigger] self.cell_seq(cx, cy)).contains(e)
    }

    /// The handles other than `id` found in the cells touched by the box of
    /// `aabb` placed at `transform`, each reported once.  Grows the grid so
    /// the box is in range; no bucket is changed.
    pub fn nearby(&mut self, id: EntityId, transform: &Transform, aabb: &AABB) -> (r: Vec<
        EntityId,
    >)
        requires
            old(self).wf(),
            transform.wf(),
            aabb.wf(),
        ensures
            final(self).wf(),
            final(self).bucket_width == old(self).bucket_width,
            final(self).bucket_height == old(self).bucket_height,
            final(self).width >= old(self).width,
            final(self).height >= old(self).height,
            forall|cx: int, cy: int| #[trigger]
                final(self).cell_seq(cx, cy) == old(self).cell_seq(cx, cy),
            r@.no_duplicates(),
            !r@.contains(id),
            final(self).width == fit_dim(
                old(self).width as int,
                needed_span(
                    old(self).bucket_width as int,
                    old(self).bucket_height as int,
                    *transform,
                    *aabb,
                ),
            ),
            final(self).height == final(self).width,
            forall|e: EntityId| #[trigger] r@.contains(e) == old(self).in_nearby(
                id,
                *transform,
                *aabb,
                e,
            ),
    {
        let xmin = transform.x + aabb.dx;
        let ymin = transform.y + aabb.dy;
        let xmax = xmin + aabb.width;
        let ymax = ymin + aabb.height;
        let (cxmin, cymin) = self.point_to_cell(xmin, ymin);
        let (cxmax, cymax) = self.point_to_cell(xmax, ymax);
        proof {
            lemma_floor_div_bounds(xmin as int, self.bucket_width as int);
            lemma_floor_div_bounds(xmax as int, self.bucket_width as int);
            lemma_floor_div_bounds(ymin as int, self.bucket_height as int);
            lemma_floor_div_bounds(ymax as int, self.bucket_height as int);
            vstd::arithmetic::div_mod::lemma_div_is_ordered(
                xmin as int,
                xmax as int,
                self.bucket_width as int,
            );
            vstd::arithmetic::div_mod::lemma_div_is_ordered(
                ymin as int,
                ymax as int,
                self.bucket_height as int,
            );
        }
        self.grow_to_fit(cxmin, cymin, cxmax, cymax);
        let ghost mid = *self;
        let ghost t = *transform;
        let ghost bx = *aabb;
        let mut found: Vec<EntityId> = Vec::new();
        let mut cx = cxmin;
        while cx <= cxmax
            invariant
                cxmin <= cx <= cxmax + 1,
                *self == mid,
                self.wf(),
                mid.bucket_width == old(self).bucket_width,
                mid.bucket_height == old(self).bucket_height,
                cxmin == cell_of(t.x + bx.dx, mid.bucket_width as int),
                cxmax == cell_of(t.x + bx.dx + bx.width, mid.bucket_width as int),
                cymin == cell_of(t.y + bx.dy, mid.bucket_height as int),
                cymax == cell_of(t.y + bx.dy + bx.height, mid.bucket_height as int),
                cymin <= cymax,
                -11264 <= cxmin <= 11264,
                -11264 <= cxmax <= 11264,
                -11264 <= cymin <= 11264,
                -11264 <= cymax <= 11264,
                zig(cxmin as int) < mid.width,
                zig(cxmax as int) < mid.width,
                zig(cymin as int) < mid.height,
                zig(cymax as int) < mid.height,
                forall|a: int, b: int| #[trigger] mid.cell_seq(a, b) == old(self).cell_seq(a, b),
                found@.no_duplicates(),
                !found@.contains(id),
                forall|e: EntityId| #[trigger] found@.contains(e) == (e != id && in_cells_before(
                    mid,
                    t,
                    bx,
                    cx as int,
                    cymin as int,
                    e,
                )),
            decreases cxmax + 1 - cx,
        {
            let mut cy = cymin;
            while cy <= cymax
                invariant
                    cxmin <= cx <= cxmax,
                    cymin <= cy <= cymax + 1,
                    *self == mid,
                    self.wf(),
                    cxmin == cell_of(t.x + bx.dx, mid.bucket_width as int),
                    cxmax == cell_of(t.x + bx.dx + bx.width, mid.bucket_width as int),
                    cymin == cell_of(t.y + bx.dy, mid.bucket_height as int),
                    cymax == cell_of(t.y + bx.dy + bx.height, mid.bucket_height as int),
                    -11264 <= cxmin <= 11264,
                    -11264 <= cxmax <= 11264,
                    -11264 <= cymin <= 11264,
                    -11264 <= cymax <= 11264,
                    zig(cxmin as int) < mid.width,
                    zig(cxmax as int) < mid.width,
                    zig(cymin as int) < mid.height,
                    zig(cymax as int) < mid.height,
                    found@.no_duplicates(),
                    !found@.contains(id),
                    forall|e: EntityId| #[trigger] found@.contains(e) == (e != id
                        && in_cells_before(mid, t, bx, cx as int, cy as int, e)),
                decreases cymax + 1 - cy,
            {
                proof {
                    lemma_zig_range(cxmin as int, cx as int, cxmax as int);
                    lemma_zig_range(cymin as int, cy as int, cymax as int);
                    lemma_zig_nonneg(cx as int);
                    lemma_zig_nonneg(cy as int);
                }
                let (wx, wy) = self.wrap_cell(cx, cy);
                proof {
                    assert(0 <= wy * self.width + wx < self.width * self.height && self.width
                        * self.height <= 0x90000000) by (nonlinear_arith)
                        requires
                            0 <= wx < self.width,
                            0 <= wy < self.height,
                            self.width <= 0xC000,
                            self.height <= 0xC000,
                    ;
                }
                let idx = wy * self.width + wx;
                let bucket = &self.buckets[idx];
                proof {
                    assert(bucket@ == mid.cell_seq(cx as int, cy as int));
                }
                let mut j: usize = 0;
                while j < bucket.len()
                    invariant
                        0 <= j <= bucket@.len(),
                        bucket@ == mid.cell_seq(cx as int, cy as int),
                        mid.covers_cell(t, bx, cx as int, cy as int),
                        found@.no_duplicates(),
                        !found@.contains(id),
                        forall|e: EntityId| #[trigger] found@.contains(e) == (e != id && (
                        in_cells_before(mid, t, bx, cx as int, cy as int, e) || bucket@.take(
                            j as int,
                        ).contains(e))),
                    decreases bucket@.len() - j,
                {
                    let e = bucket[j];
                    proof {
                        assert(bucket@.take(j + 1).drop_last() =~= bucket@.take(j as int));
                        assert(bucket@.take(j + 1).last() == bucket@[j as int]);
                        assert forall|x: EntityId| bucket@.take(j + 1).contains(x) == (bucket@.take(
                            j as int,
                        ).contains(x) || x == bucket@[j as int]) by {
                            if bucket@.take(j + 1).contains(x) {
                                let w = choose|w: int|
                                    0 <= w < bucket@.take(j + 1).len() && (#[trigger] bucket@.take(
                                        j + 1,
                                    )[w]) == x;
                                if w < j {
                                    assert(bucket@.take(j as int)[w] == x);
                                }
                            }
                            if bucket@.take(j as int).contains(x) {
                                let w = choose|w: int|
                                    0 <= w < bucket@.take(j as int).len() && (#[trigger] bucket@.take(
                                        j as int,
                                    )[w]) == x;
                                assert(bucket@.take(j + 1)[w] == x);
                            }
                            if x == bucket@[j as int] {
                                assert(bucket@.take(j + 1)[j as int] == x);
                            }
                        }
                    }
                    if e == id {
                    } else if contains_id(&found, e) {
                    } else {
                        let ghost found_old = found@;
                        found.push(e);
                        proof {
                            assert(found@ =~= found_old.push(e));
                            assert forall|x: EntityId| #[trigger] found@.contains(x) == (found_old.contains(x) || x == e) by {
                                if found@.contains(x) {
                                    let w = choose|w: int|
                                        0 <= w < found@.len() && (#[trigger] found@[w]) == x;
                                    if w < found_old.len() {
                                        assert(found_old[w] == x);
                                    }
                                }
                                if found_old.contains(x) {
                                    let w = choose|w: int|
                                        0 <= w < found_old.len() && (#[trigger] found_old[w]) == x;
                                    assert(found@[w] == x);
                                }
                                if x == e {
                                    assert(found@[found_old.len() as int] == x);
                                }
                            }
                            assert(found@.no_duplicates()) by {
                                assert forall|p: int, q: int|
                                    0 <= p < found@.len() && 0 <= q < found@.len() && p != q
                                        implies found@[p] != found@[q] by {
                                    if p < found_old.len() && q < found_old.len() {
                                    } else if p == found_old.len() {
                                        if found@[p] == found@[q] {
                                            assert(found_old.contains(found@[q]));
                                        }
                                    } else if q == found_old.len() {
                                        if found@[p] == found@[q] {
                                            assert(found_old.contains(found@[p]));
                                        }
                                    }
                                }
                            }
                        }
                    }
                    proof {
                        assert(bucket@[j as int] == e);
                        if e != id && !in_cells_before(mid, t, bx, cx as int, cy as int, e)
                            && !bucket@.take(j as int).contains(e) {
                            assert(found@.contains(e));
                        }
                    }
                    j = j + 1;
                }
                proof {
                    assert(bucket@.take(bucket@.len() as int) =~= bucket@);
                    assert forall|e: EntityId| #[trigger]
                        found@.contains(e) == (e != id && in_cells_before(
                        mid,
                        t,
                        bx,
                        cx as int,
                        cy + 1 as int,
                        e,
                    )) by {
                        if found@.contains(e) {
                            if in_cells_before(mid, t, bx, cx as int, cy as int, e) {
                                let (a, b) = choose|a: int, b: int|
                                    mid.covers_cell(t, bx, a, b) && (a < cx || (a == cx && b < cy))
                                        && (#[trigger] mid.cell_seq(a, b)).contains(e);
                                assert(mid.covers_cell(t, bx, a, b) && (a < cx || (a == cx && b < cy
                                    + 1)) && mid.cell_seq(a, b).contains(e));
                            } else {
                                assert(mid.cell_seq(cx as int, cy as int).contains(e));
                                assert(mid.covers_cell(t, bx, cx as int, cy as int) && (cx < cx || (
                                cx == cx && cy < cy + 1)) && mid.cell_seq(
                                    cx as int,
                                    cy as int,
                                ).contains(e));
                            }
                        }
                        if e != id && in_cells_before(mid, t, bx, cx as int, cy + 1 as int, e) {
                            let (a, b) = choose|a: int, b: int|
                                mid.covers_cell(t, bx, a, b) && (a < cx || (a == cx && b < cy + 1))
                                    && (#[trigger] mid.cell_seq(a, b)).contains(e);
                            if a < cx || (a == cx && b < cy) {
                                assert(in_cells_before(mid, t, bx, cx as int, cy as int, e));
                            } else {
                                assert(a == cx && b == cy);
                                assert(bucket@.contains(e));
                            }
                        }
                    }
                }
                cy = cy + 1;
            }
            proof {
                assert forall|e: EntityId| #[trigger]
                    found@.contains(e) == (e != id && in_cells_before(
                    mid,
                    t,
                    bx,
                    cx + 1 as int,
                    cymin as int,
                    e,
                )) by {
                    if found@.contains(e) {
                        let (a, b) = choose|a: int, b: int|
                            mid.covers_cell(t, bx, a, b) && (a < cx || (a == cx && b < cymax + 1))
                                && (#[trigger] mid.cell_seq(a, b)).contains(e);
                        assert(mid.covers_cell(t, bx, a, b) && (a < cx + 1 || (a == cx + 1 && b
                            < cymin)) && mid.cell_seq(a, b).contains(e));
                    }
                    if e != id && in_cells_before(mid, t, bx, cx + 1 as int, cymin as int, e) {
                        let (a, b) = choose|a: int, b: int|
                            mid.covers_cell(t, bx, a, b) && (a < cx + 1 || (a == cx + 1 && b
                                < cymin)) && (#[trigger] mid.cell_seq(a, b)).contains(e);
                        assert(b >= cymin);
                        assert(a < cx + 1);
                        if a < cx {
                            assert(in_cells_before(mid, t, bx, cx as int, cymax + 1 as int, e));
                        } else {
                            assert(a == cx && b <= cymax);
                            assert(in_cells_before(mid, t, bx, cx as int, cymax + 1 as int, e));
                        }
                    }
                }
            }
            cx = cx + 1;
        }
        proof {
            assert forall|e: EntityId| #[trigger] found@.contains(e) == old(self).in_nearby(
                id,
                t,
                bx,
                e,
            ) by {
                if found@.contains(e) {
                    let (a, b) = choose|a: int, b: int|
                        mid.covers_cell(t, bx, a, b) && (a < cxmax + 1 || (a == cxmax + 1 && b
                            < cymin)) && (#[trigger] mid.cell_seq(a, b)).contains(e);
                    assert(old(self).cell_seq(a, b).contains(e));
                    assert(old(self).covers_cell(t, bx, a, b));
                }
                if e != id && old(self).in_nearby(id, t, bx, e) {
                    let (a, b) = choose|a: int, b: int|
                        old(self).covers_cell(t, bx, a, b) && (#[trigger] old(self).cell_seq(
                            a,
                            b,
                        )).contains(e);
                    assert(mid.cell_seq(a, b) == old(self).cell_seq(a, b));
                    assert(a <= cxmax);
                    assert(in_cells_before(mid, t, bx, cxmax + 1 as int, cymin as int, e));
                }
            }
        }
        found
    }
}


/// Filtering out a handle that does not occur leaves the sequence unchanged.
pub proof fn lemma_filter_no_match(s: Seq<EntityId>, id: EntityId)
    requires
        !s.contains(id),
    ensures
        s.filter(|e: EntityId| e != id) == s,
    decreases s.len(),
{
    reveal(Seq::filter);
    if s.len() > 0 {
        assert(!s.drop_last().contains(id)) by {
            if s.drop_last().contains(id) {
                let w = choose|w: int|
                    0 <= w < s.drop_last().len() && (#[trigger] s.drop_last()[w]) == id;
                assert(s[w] == id);
            }
        }
        lemma_filter_no_match(s.drop_last(), id);
        assert(s.last() != id) by {
            assert(s[s.len() - 1] == s.last());
        }
        assert(s.filter(|e: EntityId| e != id) =~= s);
    }
}

/// Broad-phase round trip: inserting a handle that is in none of the touched
/// buckets and then removing it with the same transform and box leaves every
/// bucket in the state it was in before the insert.  The two middle states
/// are characterised by the contracts of `insert` and `remove`.
pub proof fn lemma_insert_remove_round_trip(
    s0: SpatialBuckets,
    s1: SpatialBuckets,
    s2: SpatialBuckets,
    id: EntityId,
    t: Transform,
    aabb: AABB,
)
    requires
        s1.bucket_width == s0.bucket_width,
        s1.bucket_height == s0.bucket_height,
        s2.bucket_width == s1.bucket_width,
        s2.bucket_height == s1.bucket_height,
        // what `insert` ensures of s1 given s0
        forall|cx: int, cy: int|
            s0.covers_cell(t, aabb, cx, cy) ==> #[trigger] s1.cell_seq(cx, cy) == s0.cell_seq(
                cx,
                cy,
            ).push(id),
        forall|cx: int, cy: int|
            !s0.covers_cell(t, aabb, cx, cy) ==> #[trigger] s1.cell_seq(cx, cy) == s0.cell_seq(
                cx,
                cy,
            ),
        // what `remove` ensures of s2 given s1
        forall|cx: int, cy: int|
            s1.covers_cell(t, aabb, cx, cy) ==> #[trigger] s2.cell_seq(cx, cy) == s1.cell_seq(
                cx,
                cy,
            ).filter(|e: EntityId| e != id),
        forall|cx: int, cy: int|
            !s1.covers_cell(t, aabb, cx, cy) ==> #[trigger] s2.cell_seq(cx, cy) == s1.cell_seq(
                cx,
                cy,
            ),
        // the handle is in none of the touched buckets to begin with
        forall|cx: int, cy: int|
            s0.covers_cell(t, aabb, cx, cy) ==> !(#[trigger] s0.cell_seq(cx, cy)).contains(id),
    ensures
        forall|cx: int, cy: int| #[trigger] s2.cell_seq(cx, cy) == s0.cell_seq(cx, cy),
{
    assert forall|cx: int, cy: int| #[trigger] s2.cell_seq(cx, cy) == s0.cell_seq(cx, cy) by {
        if s0.covers_cell(t, aabb, cx, cy) {
            assert(s1.covers_cell(t, aabb, cx, cy));
            lemma_filter_push(s0.cell_seq(cx, cy), id, |e: EntityId| e != id);
            lemma_filter_no_match(s0.cell_seq(cx, cy), id);
        } else {
            assert(!s1.covers_cell(t, aabb, cx, cy));
        }
    }
}

/// Broad-phase soundness, no false negatives: when the world boxes of two
/// bodies overlap and the first body's handle is present in every cell its
/// box touches, the first handle is in the nearby set of the second body's
/// box (so `nearby` reports each of two overlapping bodies for the other).
pub proof fn lemma_broadphase_no_false_negative(
    g: SpatialBuckets,
    h1: EntityId,
    t1: Transform,
    a1: AABB,
    h2: EntityId,
    t2: Transform,
    a2: AABB,
)
    requires
        g.wf(),
        h1 != h2,
        a1.wf(),
        a2.wf(),
        // the true world boxes overlap
        t1.x + a1.dx <= t2.x + a2.dx + a2.width,
        t2.x + a2.dx <= t1.x + a1.dx + a1.width,
        t1.y + a1.dy <= t2.y + a2.dy + a2.height,
        t2.y + a2.dy <= t1.y + a1.dy + a1.height,
        // the first body is indexed at its box
        forall|cx: int, cy: int|
            g.covers_cell(t1, a1, cx, cy) ==> (#[trigger] g.cell_seq(cx, cy)).contains(h1),
    ensures
        g.in_nearby(h2, t2, a2, h1),
{
    let bw = g.bucket_width as int;
    let bh = g.bucket_height as int;
    let x1min = cell_of(t1.x + a1.dx, bw);
    let x1max = cell_of(t1.x + a1.dx + a1.width, bw);
    let x2min = cell_of(t2.x + a2.dx, bw);
    let x2max = cell_of(t2.x + a2.dx + a2.width, bw);
    let y1min = cell_of(t1.y + a1.dy, bh);
    let y1max = cell_of(t1.y + a1.dy + a1.height, bh);
    let y2min = cell_of(t2.y + a2.dy, bh);
    let y2max = cell_of(t2.y + a2.dy + a2.height, bh);
    vstd::arithmetic::div_mod::lemma_div_is_ordered(t1.x + a1.dx, t2.x + a2.dx + a2.width, bw);
    vstd::arithmetic::div_mod::lemma_div_is_ordered(t2.x + a2.dx, t1.x + a1.dx + a1.width, bw);
    vstd::arithmetic::div_mod::lemma_div_is_ordered(t1.y + a1.dy, t2.y + a2.dy + a2.height, bh);
    vstd::arithmetic::div_mod::lemma_div_is_ordered(t2.y + a2.dy, t1.y + a1.dy + a1.height, bh);
    vstd::arithmetic::div_mod::lemma_div_is_ordered(t1.x + a1.dx, t1.x + a1.dx + a1.width, bw);
    vstd::arithmetic::div_mod::lemma_div_is_ordered(t2.x + a2.dx, t2.x + a2.dx + a2.width, bw);
    vstd::arithmetic::div_mod::lemma_div_is_ordered(t1.y + a1.dy, t1.y + a1.dy + a1.height, bh);
    vstd::arithmetic::div_mod::lemma_div_is_ordered(t2.y + a2.dy, t2.y + a2.dy + a2.height, bh);
    let cx = if x1min >= x2min {
        x1min
    } else {
        x2min
    };
    let cy = if y1min >= y2min {
        y1min
    } else {
        y2min
    };
    assert(g.covers_cell(t1, a1, cx, cy));
    assert(g.covers_cell(t2, a2, cx, cy));
    assert(g.cell_seq(cx, cy).contains(h1));
}


/// Filtering one handle out of a sequence does not change whether it holds
/// any other handle.
pub proof fn lemma_filter_contains_id(s: Seq<EntityId>, id: EntityId, x: EntityId)
    requires
        x != id,
    ensures
        s.filter(|e: EntityId| e != id).contains(x) == s.contains(x),
    decreases s.len(),
{
    reveal(Seq::filter);
    if s.len() > 0 {
        lemma_filter_contains_id(s.drop_last(), id, x);
        let f = s.filter(|e: EntityId| e != id);
        let fd = s.drop_last().filter(|e: EntityId| e != id);
        if f.contains(x) {
            let j = choose|j: int| 0 <= j < f.len() && (#[trigger] f[j]) == x;
            if j < fd.len() {
                assert(fd[j] == x);
                assert(s.drop_last().contains(x));
                let w = choose|w: int|
                    0 <= w < s.drop_last().len() && (#[trigger] s.drop_last()[w]) == x;
                assert(s[w] == x);
            } else {
                assert(s[s.len() - 1] == x);
            }
        }
        if s.contains(x) {
            let w = choose|w: int| 0 <= w < s.len() && (#[trigger] s[w]) == x;
            if w < s.len() - 1 {
                assert(s.drop_last()[w] == x);
                assert(fd.contains(x));
                let j = choose|j: int| 0 <= j < fd.len() && (#[trigger] fd[j]) == x;
                assert(f[j] == x);
            } else {
                if s.last() != id {
                    assert(f[f.len() - 1] == x);
                } else {
                    assert(false);
                }
            }
        }
    }
}

/// A grid whose buckets are those of another grid, each either untouched or
/// filtered of one handle, reports the same nearby sets but for that handle.
pub proof fn lemma_in_nearby_filtered(
    g0: SpatialBuckets,
    g1: SpatialBuckets,
    id: EntityId,
    tq: Transform,
    bx: AABB,
    e: EntityId,
)
    requires
        g1.bucket_width == g0.bucket_width,
        g1.bucket_height == g0.bucket_height,
        forall|cx: int, cy: int|
            #[trigger] g1.cell_seq(cx, cy) == g0.cell_seq(cx, cy) || g1.cell_seq(cx, cy)
                == g0.cell_seq(cx, cy).filter(|x: EntityId| x != id),
        e != id,
    ensures
        g1.in_nearby(id, tq, bx, e) == g0.in_nearby(id, tq, bx, e),
{
    if g1.in_nearby(id, tq, bx, e) {
        let (cx, cy) = choose|cx: int, cy: int|
            g1.covers_cell(tq, bx, cx, cy) && (#[trigger] g1.cell_seq(cx, cy)).contains(e);
        lemma_filter_contains_id(g0.cell_seq(cx, cy), id, e);
        assert(g0.cell_seq(cx, cy).contains(e));
        assert(g0.covers_cell(tq, bx, cx, cy));
        assert(g0.in_nearby(id, tq, bx, e));
    }
    if g0.in_nearby(id, tq, bx, e) {
        let (cx, cy) = choose|cx: int, cy: int|
            g0.covers_cell(tq, bx, cx, cy) && (#[trigger] g0.cell_seq(cx, cy)).contains(e);
        lemma_filter_contains_id(g0.cell_seq(cx, cy), id, e);
        assert(g1.cell_seq(cx, cy).contains(e));
        assert(g1.covers_cell(tq, bx, cx, cy));
        assert(g1.in_nearby(id, tq, bx, e));
    }
}

} // verus!

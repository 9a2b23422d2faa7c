//! The full pixel grid: a row-major arena of chunks plus dirty tracking.
//!
//! Global pixel coordinate `(gx, gy)` lives in the chunk with flat index
//! `(gy / CHUNK_SIZE) * width + gx / CHUNK_SIZE`, at local coordinate
//! `(gx % CHUNK_SIZE, gy % CHUNK_SIZE)`. Every mutation records the
//! touched chunk's index in a dirty set that a render pass drains to
//! learn which chunks need re-materializing.

use crate::chunk::{
    pixel_of, with_pixel, Chunk, PixelState, local_in_range, lemma_pos_in_range,
    CHUNK_BYTES, CHUNK_SIZE,
};
use vstd::arithmetic::div_mod::{
    lemma_fundamental_div_mod, lemma_fundamental_div_mod_converse, lemma_mod_bound,
    lemma_multiply_divide_lt,
};
use vstd::arithmetic::mul::{lemma_mul_inequality, lemma_mul_nonnegative};
use vstd::prelude::*;

verus! {

/// Flat index of the chunk that holds global pixel `(gx, gy)` on a canvas
/// `w` chunks wide.
pub open spec fn chunk_index_of(w: int, gx: int, gy: int) -> int {
    (gy / (CHUNK_SIZE as int)) * w + gx / (CHUNK_SIZE as int)
}

/// Row-major addressing is a bijection between valid global coordinates
/// and (chunk index, local coordinate) pairs: the index is in range, and
/// recomposing the chunk's grid position with the local coordinate yields
/// the original global coordinate.
pub proof fn lemma_addressing(w: int, h: int, gx: int, gy: int)
    requires
        1 <= w,
        1 <= h,
        0 <= gx < w * (CHUNK_SIZE as int),
        0 <= gy < h * (CHUNK_SIZE as int),
    ensures
        0 <= chunk_index_of(w, gx, gy) < w * h,
        chunk_index_of(w, gx, gy) % w == gx / (CHUNK_SIZE as int),
        chunk_index_of(w, gx, gy) / w == gy / (CHUNK_SIZE as int),
        (chunk_index_of(w, gx, gy) % w) * (CHUNK_SIZE as int) + gx % (CHUNK_SIZE as int) == gx,
        (chunk_index_of(w, gx, gy) / w) * (CHUNK_SIZE as int) + gy % (CHUNK_SIZE as int) == gy,
        local_in_range(gx % (CHUNK_SIZE as int), gy % (CHUNK_SIZE as int)),
{
    let s = CHUNK_SIZE as int;
    let cx = gx / s;
    let cy = gy / s;
    lemma_multiply_divide_lt(gx, s, w);
    lemma_multiply_divide_lt(gy, s, h);
    assert(0 <= cx < w);
    assert(0 <= cy < h);
    lemma_mul_nonnegative(cy, w);
    lemma_mul_inequality(cy, h - 1, w);
    assert((h - 1) * w == h * w - w) by (nonlinear_arith);
    assert(w * s == s * w) by (nonlinear_arith);
    assert(h * s == s * h) by (nonlinear_arith);
    assert(w * h == h * w) by (nonlinear_arith);
    lemma_fundamental_div_mod_converse(chunk_index_of(w, gx, gy), w, cy, cx);
    lemma_fundamental_div_mod(gx, s);
    lemma_fundamental_div_mod(gy, s);
    assert(cx * s == s * cx) by (nonlinear_arith);
    assert(cy * s == s * cy) by (nonlinear_arith);
}

/// `a - b` clamped at zero: where unsigned saturating subtraction lands
/// a negative offset.
pub open spec fn sat_sub(a: int, b: int) -> int {
    if a - b < 0 {
        0
    } else {
        a - b
    }
}

/// Whether offset pair `(i, j)` lies inside the disk of the given radius.
pub open spec fn offset_in_disk(r: int, i: int, j: int) -> bool {
    0 <= i < r && 0 <= j < r && i * i + j * j < r * r
}

/// The x coordinate of reflection `t` of offset `i` around `cx`: even
/// reflections go right, odd ones go left with clamping.
pub open spec fn stamp_x(cx: int, i: int, t: int) -> int {
    if t % 2 == 0 {
        cx + i
    } else {
        sat_sub(cx, i)
    }
}

/// The y coordinate of reflection `t` of offset `j` around `cy`: the
/// first two reflections go down, the last two go up with clamping.
pub open spec fn stamp_y(cy: int, j: int, t: int) -> int {
    if t / 2 == 0 {
        cy + j
    } else {
        sat_sub(cy, j)
    }
}

/// Whether `circle(cx, cy, r)` stamps pixel `(gx, gy)`: some in-disk
/// offset pair, reflected four ways around the center with negative
/// coordinates clamped to zero, lands there.
pub open spec fn disk_covers(cx: int, cy: int, r: int, gx: int, gy: int) -> bool {
    exists|i: int, j: int|
        #![trigger offset_in_disk(r, i, j)]
        offset_in_disk(r, i, j) && (gx == cx + i || gx == sat_sub(cx, i)) && (gy == cy + j || gy
            == sat_sub(cy, j))
}

/// Pixels stamped by the reflections already emitted when the stamping
/// loops stand at offset pair `(i, j)`, about to emit reflection `t0`.
pub open spec fn covered_before(
    cx: int,
    cy: int,
    r: int,
    i: int,
    j: int,
    t0: int,
    gx: int,
    gy: int,
) -> bool {
    exists|a: int, b: int, t: int|
        #![trigger offset_in_disk(r, a, b), stamp_x(cx, a, t), stamp_y(cy, b, t)]
        0 <= t < 4 && (a < i || (a == i && (b < j || (b == j && t < t0)))) && offset_in_disk(
            r,
            a,
            b,
        ) && gx == stamp_x(cx, a, t) && gy == stamp_y(cy, b, t)
}

/// Before the first reflection of the first pair, nothing is stamped.
proof fn lemma_covered_none(cx: int, cy: int, r: int)
    ensures
        forall|gx: int, gy: int| !covered_before(cx, cy, r, 0, 0, 0, gx, gy),
{
    assert forall|gx: int, gy: int| !covered_before(cx, cy, r, 0, 0, 0, gx, gy) by {
        if covered_before(cx, cy, r, 0, 0, 0, gx, gy) {
            let (a, b, t) = choose|a: int, b: int, t: int|
                0 <= t < 4 && (a < 0 || (a == 0 && (b < 0 || (b == 0 && t < 0))))
                    && offset_in_disk(r, a, b) && gx == stamp_x(cx, a, t) && gy == stamp_y(
                    cy,
                    b,
                    t,
                );
            assert(false);
        }
    }
}

/// Emitting reflection `t0` of pair `(i, j)` extends the stamped region
/// by exactly that reflection's pixel.
proof fn lemma_covered_step(cx: int, cy: int, r: int, i: int, j: int, t0: int)
    requires
        0 <= t0 < 4,
        offset_in_disk(r, i, j),
    ensures
        forall|gx: int, gy: int|
            covered_before(cx, cy, r, i, j, t0 + 1, gx, gy) <==> covered_before(
                cx,
                cy,
                r,
                i,
                j,
                t0,
                gx,
                gy,
            ) || (gx == stamp_x(cx, i, t0) && gy == stamp_y(cy, j, t0)),
{
    assert forall|gx: int, gy: int|
        covered_before(cx, cy, r, i, j, t0 + 1, gx, gy) <==> covered_before(cx, cy, r, i, j, t0, gx, gy)
            || (gx == stamp_x(cx, i, t0) && gy == stamp_y(cy, j, t0)) by {
        if covered_before(cx, cy, r, i, j, t0 + 1, gx, gy) {
            let (a, b, t) = choose|a: int, b: int, t: int|
                0 <= t < 4 && (a < i || (a == i && (b < j || (b == j && t < t0 + 1))))
                    && offset_in_disk(r, a, b) && gx == stamp_x(cx, a, t) && gy == stamp_y(
                    cy,
                    b,
                    t,
                );
            if a == i && b == j && t == t0 {
                assert(gx == stamp_x(cx, i, t0) && gy == stamp_y(cy, j, t0));
            } else {
                assert(covered_before(cx, cy, r, i, j, t0, gx, gy));
            }
        }
        if covered_before(cx, cy, r, i, j, t0, gx, gy) {
            let (a, b, t) = choose|a: int, b: int, t: int|
                0 <= t < 4 && (a < i || (a == i && (b < j || (b == j && t < t0))))
                    && offset_in_disk(r, a, b) && gx == stamp_x(cx, a, t) && gy == stamp_y(
                    cy,
                    b,
                    t,
                );
            assert(covered_before(cx, cy, r, i, j, t0 + 1, gx, gy));
        }
        if gx == stamp_x(cx, i, t0) && gy == stamp_y(cy, j, t0) {
            assert(covered_before(cx, cy, r, i, j, t0 + 1, gx, gy));
        }
    }
}

/// After all four reflections of pair `(i, j)`, the stamped region is
/// that of standing at pair `(i, j + 1)`.
proof fn lemma_covered_roll_j(cx: int, cy: int, r: int, i: int, j: int)
    ensures
        forall|gx: int, gy: int|
            covered_before(cx, cy, r, i, j, 4, gx, gy) <==> covered_before(
                cx,
                cy,
                r,
                i,
                j + 1,
                0,
                gx,
                gy,
            ),
{
    assert forall|gx: int, gy: int|
        covered_before(cx, cy, r, i, j, 4, gx, gy) <==> covered_before(cx, cy, r, i, j + 1, 0, gx, gy) by {
        if covered_before(cx, cy, r, i, j, 4, gx, gy) {
            let (a, b, t) = choose|a: int, b: int, t: int|
                0 <= t < 4 && (a < i || (a == i && (b < j || (b == j && t < 4))))
                    && offset_in_disk(r, a, b) && gx == stamp_x(cx, a, t) && gy == stamp_y(
                    cy,
                    b,
                    t,
                );
            assert(covered_before(cx, cy, r, i, j + 1, 0, gx, gy));
        }
        if covered_before(cx, cy, r, i, j + 1, 0, gx, gy) {
            let (a, b, t) = choose|a: int, b: int, t: int|
                0 <= t < 4 && (a < i || (a == i && (b < j + 1 || (b == j + 1 && t < 0))))
                    && offset_in_disk(r, a, b) && gx == stamp_x(cx, a, t) && gy == stamp_y(
                    cy,
                    b,
                    t,
                );
            assert(covered_before(cx, cy, r, i, j, 4, gx, gy));
        }
    }
}

/// A pair outside the disk stamps nothing: skipping it leaves the
/// stamped region unchanged.
proof fn lemma_covered_skip(cx: int, cy: int, r: int, i: int, j: int)
    requires
        !offset_in_disk(r, i, j),
    ensures
        forall|gx: int, gy: int|
            covered_before(cx, cy, r, i, j, 0, gx, gy) <==> covered_before(
                cx,
                cy,
                r,
                i,
                j + 1,
                0,
                gx,
                gy,
            ),
{
    assert forall|gx: int, gy: int|
        covered_before(cx, cy, r, i, j, 0, gx, gy) <==> covered_before(cx, cy, r, i, j + 1, 0, gx, gy) by {
        if covered_before(cx, cy, r, i, j, 0, gx, gy) {
            let (a, b, t) = choose|a: int, b: int, t: int|
                0 <= t < 4 && (a < i || (a == i && (b < j || (b == j && t < 0))))
                    && offset_in_disk(r, a, b) && gx == stamp_x(cx, a, t) && gy == stamp_y(
                    cy,
                    b,
                    t,
                );
            assert(covered_before(cx, cy, r, i, j + 1, 0, gx, gy));
        }
        if covered_before(cx, cy, r, i, j + 1, 0, gx, gy) {
            let (a, b, t) = choose|a: int, b: int, t: int|
                0 <= t < 4 && (a < i || (a == i && (b < j + 1 || (b == j + 1 && t < 0))))
                    && offset_in_disk(r, a, b) && gx == stamp_x(cx, a, t) && gy == stamp_y(
                    cy,
                    b,
                    t,
                );
            assert(!(a == i && b == j));
            assert(covered_before(cx, cy, r, i, j, 0, gx, gy));
        }
    }
}

/// When the inner loop has walked every `j` for row `i`, the stamped
/// region is that of standing at row `i + 1`.
proof fn lemma_covered_roll_i(cx: int, cy: int, r: int, i: int)
    ensures
        forall|gx: int, gy: int|
            covered_before(cx, cy, r, i, r, 0, gx, gy) <==> covered_before(
                cx,
                cy,
                r,
                i + 1,
                0,
                0,
                gx,
                gy,
            ),
{
    assert forall|gx: int, gy: int|
        covered_before(cx, cy, r, i, r, 0, gx, gy) <==> covered_before(cx, cy, r, i + 1, 0, 0, gx, gy) by {
        if covered_before(cx, cy, r, i, r, 0, gx, gy) {
            let (a, b, t) = choose|a: int, b: int, t: int|
                0 <= t < 4 && (a < i || (a == i && (b < r || (b == r && t < 0))))
                    && offset_in_disk(r, a, b) && gx == stamp_x(cx, a, t) && gy == stamp_y(
                    cy,
                    b,
                    t,
                );
            assert(covered_before(cx, cy, r, i + 1, 0, 0, gx, gy));
        }
        if covered_before(cx, cy, r, i + 1, 0, 0, gx, gy) {
            let (a, b, t) = choose|a: int, b: int, t: int|
                0 <= t < 4 && (a < i + 1 || (a == i + 1 && (b < 0 || (b == 0 && t < 0))))
                    && offset_in_disk(r, a, b) && gx == stamp_x(cx, a, t) && gy == stamp_y(
                    cy,
                    b,
                    t,
                );
            assert(covered_before(cx, cy, r, i, r, 0, gx, gy));
        }
    }
}

/// Standing past the last row, the stamped region is the whole clamped
/// disk.
proof fn lemma_covered_complete(cx: int, cy: int, r: int)
    ensures
        forall|gx: int, gy: int|
            covered_before(cx, cy, r, r, 0, 0, gx, gy) <==> disk_covers(cx, cy, r, gx, gy),
{
    assert forall|gx: int, gy: int|
        covered_before(cx, cy, r, r, 0, 0, gx, gy) <==> disk_covers(cx, cy, r, gx, gy) by {
        if covered_before(cx, cy, r, r, 0, 0, gx, gy) {
            let (a, b, t) = choose|a: int, b: int, t: int|
                0 <= t < 4 && (a < r || (a == r && (b < 0 || (b == 0 && t < 0))))
                    && offset_in_disk(r, a, b) && gx == stamp_x(cx, a, t) && gy == stamp_y(
                    cy,
                    b,
                    t,
                );
            assert(gx == cx + a || gx == sat_sub(cx, a));
            assert(gy == cy + b || gy == sat_sub(cy, b));
            assert(disk_covers(cx, cy, r, gx, gy));
        }
        if disk_covers(cx, cy, r, gx, gy) {
            let (i, j) = choose|i: int, j: int|
                offset_in_disk(r, i, j) && (gx == cx + i || gx == sat_sub(cx, i)) && (gy == cy + j
                    || gy == sat_sub(cy, j));
            let t = (if gx == cx + i {
                0int
            } else {
                1int
            }) + (if gy == cy + j {
                0int
            } else {
                2int
            });
            assert(gx == stamp_x(cx, i, t));
            assert(gy == stamp_y(cy, j, t));
            assert(covered_before(cx, cy, r, r, 0, 0, gx, gy));
        }
    }
}

/// With radius zero no offset pair lies in the disk, so nothing is
/// stamped.
pub proof fn lemma_disk_covers_zero_radius(cx: int, cy: int, gx: int, gy: int)
    ensures
        !disk_covers(cx, cy, 0, gx, gy),
{
    if disk_covers(cx, cy, 0, gx, gy) {
        let (i, j) = choose|i: int, j: int|
            offset_in_disk(0, i, j) && (gx == cx + i || gx == sat_sub(cx, i)) && (gy == cy + j
                || gy == sat_sub(cy, j));
        assert(false);
    }
}

/// With the center at least a radius away from both zero edges, no
/// clamping triggers and the stamped region is symmetric under
/// reflection through the center.
pub proof fn lemma_disk_covers_symmetric(cx: int, cy: int, r: int, px: int, py: int)
    requires
        r <= cx,
        r <= cy,
    ensures
        disk_covers(cx, cy, r, px, py) <==> disk_covers(cx, cy, r, 2 * cx - px, 2 * cy - py),
{
    assert forall|qx: int, qy: int| #[trigger]
        disk_covers(cx, cy, r, qx, qy) implies disk_covers(cx, cy, r, 2 * cx - qx, 2 * cy - qy) by {
        let (i, j) = choose|i: int, j: int|
            offset_in_disk(r, i, j) && (qx == cx + i || qx == sat_sub(cx, i)) && (qy == cy + j
                || qy == sat_sub(cy, j));
        assert(sat_sub(cx, i) == cx - i);
        assert(sat_sub(cy, j) == cy - j);
        assert(2 * cx - qx == cx + i || 2 * cx - qx == sat_sub(cx, i));
        assert(2 * cy - qy == cy + j || 2 * cy - qy == sat_sub(cy, j));
        assert(disk_covers(cx, cy, r, 2 * cx - qx, 2 * cy - qy));
    }
    if disk_covers(cx, cy, r, 2 * cx - px, 2 * cy - py) {
        assert(disk_covers(cx, cy, r, 2 * cx - (2 * cx - px), 2 * cy - (2 * cy - py)));
    }
}

/// The canvas: `width * height` chunks in row-major order, and the set of
/// chunk indices mutated since the last drain.
pub struct Canvas {
    chunks: Vec<Chunk>,
    dirty: Vec<usize>,
    width: u32,
    height: u32,
}

impl Canvas {
    /// Grid width, in chunks.
    pub closed spec fn width_spec(&self) -> int {
        self.width as int
    }

    /// Grid height, in chunks.
    pub closed spec fn height_spec(&self) -> int {
        self.height as int
    }

    /// Number of chunks owned.
    pub closed spec fn chunk_count(&self) -> int {
        self.chunks@.len() as int
    }

    /// Bitmap of the chunk at flat index `k`.
    pub closed spec fn chunk_data(&self, k: int) -> Seq<u8> {
        self.chunks@[k]@
    }

    /// The dirty set, in its insertion order.
    pub closed spec fn dirty_list(&self) -> Seq<usize> {
        self.dirty@
    }

    /// Whether chunk index `c` is marked dirty.
    pub open spec fn is_dirty(&self, c: usize) -> bool {
        self.dirty_list().contains(c)
    }

    /// Well-formed: the arena holds exactly `width * height` chunks of
    /// full storage size, the grid fits the `u32` coordinate arithmetic,
    /// and the dirty list is a set of valid chunk indices.
    pub open spec fn wf(&self) -> bool {
        &&& 1 <= self.width_spec()
        &&& 1 <= self.height_spec()
        &&& self.chunk_count() == self.width_spec() * self.height_spec()
        &&& self.width_spec() * self.height_spec() <= u32::MAX
        &&& self.width_spec() * (CHUNK_SIZE as int) <= u32::MAX
        &&& self.height_spec() * (CHUNK_SIZE as int) <= u32::MAX
        &&& forall|k: int|
            0 <= k < self.chunk_count() ==> (#[trigger] self.chunk_data(k)).len() == CHUNK_BYTES
        &&& self.dirty_list().no_duplicates()
        &&& forall|k: int|
            0 <= k < self.dirty_list().len() ==> ((#[trigger] self.dirty_list()[k]) as int)
                < self.chunk_count()
    }

    /// Whether `(gx, gy)` is a valid global pixel coordinate.
    pub open spec fn in_bounds(&self, gx: int, gy: int) -> bool {
        &&& 0 <= gx < self.width_spec() * (CHUNK_SIZE as int)
        &&& 0 <= gy < self.height_spec() * (CHUNK_SIZE as int)
    }

    /// Flat index of the chunk holding `(gx, gy)`.
    pub open spec fn chunk_of(&self, gx: int, gy: int) -> int {
        chunk_index_of(self.width_spec(), gx, gy)
    }

    /// Whether global pixel `(gx, gy)` is on.
    pub open spec fn pixel(&self, gx: int, gy: int) -> bool {
        pixel_of(
            self.chunk_data(self.chunk_of(gx, gy)),
            gx % (CHUNK_SIZE as int),
            gy % (CHUNK_SIZE as int),
        )
    }

    /// A fresh canvas of `width * height` chunks: every pixel off and the
    /// dirty set empty.
    pub fn new(width: u32, height: u32) -> (c: Canvas)
        requires
            1 <= width,
            1 <= height,
            width * height <= u32::MAX,
            width * (CHUNK_SIZE as int) <= u32::MAX,
            height * (CHUNK_SIZE as int) <= u32::MAX,
        ensures
            c.wf(),
            c.width_spec() == width,
            c.height_spec() == height,
            c.dirty_list() == Seq::<usize>::empty(),
            forall|gx: int, gy: int| c.in_bounds(gx, gy) ==> !(#[trigger] c.pixel(gx, gy)),
    {
        let total: u32 = width * height;
        let mut chunks: Vec<Chunk> = Vec::new();
        let mut i: u32 = 0;
        while i < total
            invariant
                i <= total,
                chunks@.len() == i,
                forall|k: int| 0 <= k < i ==> (#[trigger] chunks@[k]@).len() == CHUNK_BYTES,
                forall|k: int, b: int|
                    0 <= k < i && 0 <= b < CHUNK_BYTES ==> (#[trigger] chunks@[k]@[b]) == 0u8,
            decreases total - i,
        {
            chunks.push(Chunk::new());
            i = i + 1;
        }
        let c = Canvas { chunks, dirty: Vec::new(), width, height };
        proof {
            assert(forall|i: u8| i < 8 ==> ((0u8 >> i) & 1u8) == 0u8) by (bit_vector);
            assert forall|gx: int, gy: int| c.in_bounds(gx, gy) implies !c.pixel(gx, gy) by {
                lemma_addressing(width as int, height as int, gx, gy);
                lemma_pos_in_range(gx % (CHUNK_SIZE as int), gy % (CHUNK_SIZE as int));
            }
        }
        c
    }

    /// Grid width, in chunks.
    pub fn width(&self) -> (w: u32)
        ensures
            w == self.width_spec(),
    {
        self.width
    }

    /// Grid height, in chunks.
    pub fn height(&self) -> (h: u32)
        ensures
            h == self.height_spec(),
    {
        self.height
    }

    /// Number of chunks owned.
    pub fn chunks_len(&self) -> (n: usize)
        ensures
            n == self.chunk_count(),
    {
        self.chunks.len()
    }

    /// Borrow the chunk at flat index `index`, for a renderer to snapshot.
    pub fn chunk_at(&self, index: usize) -> (c: &Chunk)
        requires
            index < self.chunk_count(),
        ensures
            c@ == self.chunk_data(index as int),
    {
        &self.chunks[index]
    }

    /// Pixel offset of chunk `index` in the overall display: the grid
    /// position recomposed by the same row-major formula that `chunk_of`
    /// decomposes, so a renderer placing chunk `index` at this offset
    /// agrees with the canvas's own addressing.
    pub fn chunk_origin(&self, index: u32) -> (r: (u32, u32))
        requires
            self.wf(),
            (index as int) < self.chunk_count(),
        ensures
            r.0 == ((index as int) % self.width_spec()) * (CHUNK_SIZE as int),
            r.1 == ((index as int) / self.width_spec()) * (CHUNK_SIZE as int),
    {
        proof {
            let w = self.width_spec();
            let h = self.height_spec();
            let c = CHUNK_SIZE as int;
            lemma_mod_bound(index as int, w);
            lemma_multiply_divide_lt(index as int, w, h);
            lemma_mul_inequality((index as int) % w, w - 1, c);
            lemma_mul_inequality((index as int) / w, h - 1, c);
            assert((w - 1) * c == w * c - c) by (nonlinear_arith);
            assert((h - 1) * c == h * c - c) by (nonlinear_arith);
        }
        ((index % self.width) * CHUNK_SIZE, (index / self.width) * CHUNK_SIZE)
    }

    /// Whether `(gx, gy)` falls outside the canvas.
    pub fn is_oob(&self, gx: u32, gy: u32) -> (r: bool)
        requires
            self.wf(),
        ensures
            r == !self.in_bounds(gx as int, gy as int),
    {
        gx >= self.width * CHUNK_SIZE || gy >= self.height * CHUNK_SIZE
    }

    /// Whether global pixel `(gx, gy)` is on, as the stored bit (0 or 1).
    /// The coordinate must be in bounds: the read path leaves bounds
    /// checking to the caller.
    pub fn get_pixel(&self, gx: u32, gy: u32) -> (r: u8)
        requires
            self.wf(),
            self.in_bounds(gx as int, gy as int),
        ensures
            r == if self.pixel(gx as int, gy as int) {
                1u8
            } else {
                0u8
            },
    {
        proof {
            lemma_addressing(self.width_spec(), self.height_spec(), gx as int, gy as int);
        }
        let cx: u32 = gx / CHUNK_SIZE;
        let cy: u32 = gy / CHUNK_SIZE;
        let ci: u32 = cy * self.width + cx;
        proof {
            assert(ci as int == self.chunk_of(gx as int, gy as int));
            assert(self.chunk_data(ci as int).len() == CHUNK_BYTES);
        }
        let chunk = &self.chunks[ci as usize];
        proof {
            assert(chunk@ == self.chunk_data(ci as int));
        }
        chunk.get_pixel(gx % CHUNK_SIZE, gy % CHUNK_SIZE)
    }

    /// Whether chunk index `c` is marked dirty.
    fn dirty_contains(&self, c: usize) -> (r: bool)
        ensures
            r == self.is_dirty(c),
    {
        let mut k: usize = 0;
        while k < self.dirty.len()
            invariant
                k <= self.dirty@.len(),
                forall|m: int| 0 <= m < k ==> (#[trigger] self.dirty@[m]) != c,
            decreases self.dirty@.len() - k,
        {
            if self.dirty[k] == c {
                return true;
            }
            k = k + 1;
        }
        false
    }

    /// Store `state` into global pixel `(gx, gy)` and mark its chunk
    /// dirty. An out-of-bounds coordinate is silently dropped: this is
    /// the write path's one defensive boundary check.
    pub fn set_pixel(&mut self, gx: u32, gy: u32, state: PixelState)
        requires
            old(self).wf(),
        ensures
            final(self).wf(),
            final(self).width_spec() == old(self).width_spec(),
            final(self).height_spec() == old(self).height_spec(),
            !old(self).in_bounds(gx as int, gy as int) ==> *final(self) == *old(self),
            old(self).in_bounds(gx as int, gy as int) ==> {
                &&& forall|x2: int, y2: int|
                    final(self).in_bounds(x2, y2) ==> (#[trigger] final(self).pixel(x2, y2)
                        == if x2 == gx && y2 == gy {
                        state.is_on()
                    } else {
                        old(self).pixel(x2, y2)
                    })
                &&& forall|c: usize|
                    #[trigger] final(self).is_dirty(c) <==> old(self).is_dirty(c) || c
                        == old(self).chunk_of(gx as int, gy as int)
            },
    {
        if self.is_oob(gx, gy) {
            return;
        }
        let ghost w = self.width_spec();
        let ghost h = self.height_spec();
        let ghost s = CHUNK_SIZE as int;
        let ghost target = self.chunk_of(gx as int, gy as int);
        proof {
            lemma_addressing(w, h, gx as int, gy as int);
        }
        let cx: u32 = gx / CHUNK_SIZE;
        let cy: u32 = gy / CHUNK_SIZE;
        let ci: u32 = cy * self.width + cx;
        let idx: usize = ci as usize;
        proof {
            assert(idx as int == target);
            assert(self.chunk_data(target).len() == CHUNK_BYTES);
        }
        let lx: u32 = gx % CHUNK_SIZE;
        let ly: u32 = gy % CHUNK_SIZE;
        let ghost before = self.chunk_data(target);
        let chunk = &mut self.chunks[idx];
        chunk.set_pixel(lx, ly, state);
        proof {
            assert(self.chunk_count() == old(self).chunk_count());
            assert(self.chunk_data(target) == with_pixel(
                before,
                lx as int,
                ly as int,
                state.bit_value(),
            ));
            assert(forall|k: int|
                0 <= k < self.chunk_count() && k != target ==> #[trigger] self.chunk_data(k)
                    == old(self).chunk_data(k));
        }
        let ghost mid_dirty = self.dirty@;
        let had = self.dirty_contains(idx);
        if !had {
            self.dirty.push(idx);
        }
        proof {
            assert(mid_dirty == old(self).dirty_list());
            crate::chunk::lemma_with_pixel_effect(before, lx as int, ly as int, state.bit_value());
            assert forall|x2: int, y2: int| self.in_bounds(x2, y2) implies (#[trigger] self.pixel(
                x2,
                y2,
            ) == if x2 == gx && y2 == gy {
                state.is_on()
            } else {
                old(self).pixel(x2, y2)
            }) by {
                lemma_addressing(w, h, x2, y2);
                let ci2 = self.chunk_of(x2, y2);
                if ci2 == target {
                    if x2 % s == lx as int && y2 % s == ly as int {
                        assert(x2 == (ci2 % w) * s + x2 % s);
                        assert(gx as int == (target % w) * s + lx as int);
                        assert(x2 == gx && y2 == gy);
                    } else {
                        assert(!(x2 == gx && y2 == gy));
                    }
                } else {
                    assert(!(x2 == gx && y2 == gy));
                }
            }
            assert forall|c: usize| #[trigger]
                self.is_dirty(c) <==> old(self).is_dirty(c) || c == old(self).chunk_of(
                    gx as int,
                    gy as int,
                ) by {
                if old(self).dirty_list().contains(c) {
                    let m = choose|m: int|
                        0 <= m < old(self).dirty_list().len() && old(self).dirty_list()[m] == c;
                    assert(self.dirty@[m] == c);
                }
                if self.dirty@.contains(c) {
                    let m = choose|m: int| 0 <= m < self.dirty@.len() && self.dirty@[m] == c;
                    if m < old(self).dirty_list().len() {
                        assert(old(self).dirty_list()[m] == c);
                    } else {
                        assert(c == idx);
                    }
                }
                if !had && c == idx {
                    assert(self.dirty@[self.dirty@.len() - 1] == idx);
                }
            }
            assert(self.width_spec() == old(self).width_spec());
            assert(self.height_spec() == old(self).height_spec());
            assert(self.chunk_count() == self.width_spec() * self.height_spec());
            assert forall|k: int| 0 <= k < self.chunk_count() implies (#[trigger] self.chunk_data(
                k,
            )).len() == CHUNK_BYTES by {
                if k != target {
                    assert(self.chunk_data(k) == old(self).chunk_data(k));
                }
            }
            assert forall|k: int| 0 <= k < self.dirty_list().len() implies ((
            #[trigger] self.dirty_list()[k]) as int) < self.chunk_count() by {
                if k < mid_dirty.len() {
                    assert(self.dirty@[k] == mid_dirty[k]);
                } else {
                    assert(self.dirty@[k] == idx);
                }
            }
            assert(self.dirty@.no_duplicates()) by {
                if !had {
                    assert forall|m: int, n: int|
                        0 <= m < self.dirty@.len() && 0 <= n < self.dirty@.len() && m
                            != n implies self.dirty@[m] != self.dirty@[n] by {
                        if m == self.dirty@.len() - 1 {
                            assert(mid_dirty[n] == self.dirty@[n]);
                        } else if n == self.dirty@.len() - 1 {
                            assert(mid_dirty[m] == self.dirty@[m]);
                        } else {
                            assert(mid_dirty[m] == self.dirty@[m]);
                            assert(mid_dirty[n] == self.dirty@[n]);
                        }
                    }
                }
            }
        }
    }

    /// Stamping progress, pixel side: relative to the canvas `base` from
    /// before the call, exactly the reflections already emitted are on.
    spec fn stamp_pixels_inv(
        self,
        base: Canvas,
        cx: int,
        cy: int,
        r: int,
        i: int,
        j: int,
        t: int,
    ) -> bool {
        forall|x2: int, y2: int|
            base.in_bounds(x2, y2) ==> (#[trigger] self.pixel(x2, y2) == (base.pixel(x2, y2)
                || covered_before(cx, cy, r, i, j, t, x2, y2)))
    }

    /// Stamping progress, dirty side: relative to `base`, exactly the
    /// chunks of the in-bounds reflections already emitted are newly
    /// dirty.
    spec fn stamp_dirty_inv(
        self,
        base: Canvas,
        cx: int,
        cy: int,
        r: int,
        i: int,
        j: int,
        t: int,
    ) -> bool {
        forall|c: usize|
            #[trigger] self.is_dirty(c) <==> base.is_dirty(c) || exists|x2: int, y2: int|
                base.in_bounds(x2, y2) && #[trigger] covered_before(cx, cy, r, i, j, t, x2, y2)
                    && base.chunk_of(x2, y2) == c
    }

    /// Both stamping invariants carry across any reformulation of the
    /// stamped region that keeps the same pixels.
    proof fn lemma_stamp_inv_transfer(
        self,
        base: Canvas,
        cx: int,
        cy: int,
        r: int,
        i1: int,
        j1: int,
        t1: int,
        i2: int,
        j2: int,
        t2: int,
    )
        requires
            forall|gx: int, gy: int|
                covered_before(cx, cy, r, i1, j1, t1, gx, gy) <==> covered_before(
                    cx,
                    cy,
                    r,
                    i2,
                    j2,
                    t2,
                    gx,
                    gy,
                ),
            self.stamp_pixels_inv(base, cx, cy, r, i1, j1, t1),
            self.stamp_dirty_inv(base, cx, cy, r, i1, j1, t1),
        ensures
            self.stamp_pixels_inv(base, cx, cy, r, i2, j2, t2),
            self.stamp_dirty_inv(base, cx, cy, r, i2, j2, t2),
    {
        assert forall|x2: int, y2: int| base.in_bounds(x2, y2) implies (#[trigger] self.pixel(
            x2,
            y2,
        ) == (base.pixel(x2, y2) || covered_before(cx, cy, r, i2, j2, t2, x2, y2))) by {
            assert(covered_before(cx, cy, r, i1, j1, t1, x2, y2) <==> covered_before(
                cx,
                cy,
                r,
                i2,
                j2,
                t2,
                x2,
                y2,
            ));
        }
        assert forall|c: usize| #[trigger]
            self.is_dirty(c) <==> base.is_dirty(c) || exists|x2: int, y2: int|
                base.in_bounds(x2, y2) && #[trigger] covered_before(cx, cy, r, i2, j2, t2, x2, y2)
                    && base.chunk_of(x2, y2) == c by {
            if self.is_dirty(c) && !base.is_dirty(c) {
                let (x2, y2) = choose|x2: int, y2: int|
                    base.in_bounds(x2, y2) && #[trigger] covered_before(
                        cx,
                        cy,
                        r,
                        i1,
                        j1,
                        t1,
                        x2,
                        y2,
                    ) && base.chunk_of(x2, y2) == c;
                assert(covered_before(cx, cy, r, i2, j2, t2, x2, y2));
            }
            if exists|x2: int, y2: int|
                base.in_bounds(x2, y2) && #[trigger] covered_before(cx, cy, r, i2, j2, t2, x2, y2)
                    && base.chunk_of(x2, y2) == c {
                let (x2, y2) = choose|x2: int, y2: int|
                    base.in_bounds(x2, y2) && #[trigger] covered_before(
                        cx,
                        cy,
                        r,
                        i2,
                        j2,
                        t2,
                        x2,
                        y2,
                    ) && base.chunk_of(x2, y2) == c;
                assert(covered_before(cx, cy, r, i1, j1, t1, x2, y2));
            }
        }
    }

    /// Emit reflection `t` of offset pair `(i, j)` around `(cx, cy)`.
    fn stamp(&mut self, base: Ghost<Canvas>, cx: u32, cy: u32, radius: u32, i: u32, j: u32, t: u32)
        requires
            old(self).wf(),
            base@.wf(),
            old(self).width_spec() == base@.width_spec(),
            old(self).height_spec() == base@.height_spec(),
            t < 4,
            offset_in_disk(radius as int, i as int, j as int),
            cx + radius <= u32::MAX,
            cy + radius <= u32::MAX,
            old(self).stamp_pixels_inv(
                base@,
                cx as int,
                cy as int,
                radius as int,
                i as int,
                j as int,
                t as int,
            ),
            old(self).stamp_dirty_inv(
                base@,
                cx as int,
                cy as int,
                radius as int,
                i as int,
                j as int,
                t as int,
            ),
        ensures
            final(self).wf(),
            final(self).width_spec() == base@.width_spec(),
            final(self).height_spec() == base@.height_spec(),
            final(self).stamp_pixels_inv(
                base@,
                cx as int,
                cy as int,
                radius as int,
                i as int,
                j as int,
                t + 1,
            ),
            final(self).stamp_dirty_inv(
                base@,
                cx as int,
                cy as int,
                radius as int,
                i as int,
                j as int,
                t + 1,
            ),
    {
        let ghost cxi = cx as int;
        let ghost cyi = cy as int;
        let ghost ri = radius as int;
        let ghost ii = i as int;
        let ghost ji = j as int;
        let ghost ti = t as int;
        let tx: u32 = if t % 2 == 0 {
            cx + i
        } else {
            cx.saturating_sub(i)
        };
        let ty: u32 = if t < 2 {
            cy + j
        } else {
            cy.saturating_sub(j)
        };
        proof {
            assert(tx as int == stamp_x(cxi, ii, ti));
            assert(ty as int == stamp_y(cyi, ji, ti));
        }
        self.set_pixel(tx, ty, PixelState::On);
        proof {
            lemma_covered_step(cxi, cyi, ri, ii, ji, ti);
            assert forall|x2: int, y2: int| base@.in_bounds(x2, y2) implies (#[trigger] self.pixel(
                x2,
                y2,
            ) == (base@.pixel(x2, y2) || covered_before(cxi, cyi, ri, ii, ji, ti + 1, x2, y2))) by {
                if old(self).in_bounds(tx as int, ty as int) {
                    if x2 == tx as int && y2 == ty as int {
                        assert(covered_before(cxi, cyi, ri, ii, ji, ti + 1, x2, y2));
                    }
                } else {
                    assert(!(x2 == tx as int && y2 == ty as int));
                }
            }
            assert forall|c: usize| #[trigger]
                self.is_dirty(c) <==> base@.is_dirty(c) || exists|x2: int, y2: int|
                    base@.in_bounds(x2, y2) && #[trigger] covered_before(
                        cxi,
                        cyi,
                        ri,
                        ii,
                        ji,
                        ti + 1,
                        x2,
                        y2,
                    ) && base@.chunk_of(x2, y2) == c by {
                if self.is_dirty(c) {
                    if old(self).is_dirty(c) {
                        if !base@.is_dirty(c) {
                            let (x2, y2) = choose|x2: int, y2: int|
                                base@.in_bounds(x2, y2) && #[trigger] covered_before(
                                    cxi,
                                    cyi,
                                    ri,
                                    ii,
                                    ji,
                                    ti,
                                    x2,
                                    y2,
                                ) && base@.chunk_of(x2, y2) == c;
                            assert(covered_before(cxi, cyi, ri, ii, ji, ti + 1, x2, y2));
                        }
                    } else {
                        assert(old(self).in_bounds(tx as int, ty as int));
                        assert(c == old(self).chunk_of(tx as int, ty as int));
                        assert(covered_before(cxi, cyi, ri, ii, ji, ti + 1, tx as int, ty as int));
                        assert(base@.in_bounds(tx as int, ty as int) && covered_before(
                            cxi,
                            cyi,
                            ri,
                            ii,
                            ji,
                            ti + 1,
                            tx as int,
                            ty as int,
                        ) && base@.chunk_of(tx as int, ty as int) == c);
                    }
                }
                if base@.is_dirty(c) {
                    assert(old(self).is_dirty(c));
                    assert(self.is_dirty(c));
                }
                if exists|x2: int, y2: int|
                    base@.in_bounds(x2, y2) && #[trigger] covered_before(
                        cxi,
                        cyi,
                        ri,
                        ii,
                        ji,
                        ti + 1,
                        x2,
                        y2,
                    ) && base@.chunk_of(x2, y2) == c {
                    let (x2, y2) = choose|x2: int, y2: int|
                        base@.in_bounds(x2, y2) && #[trigger] covered_before(
                            cxi,
                            cyi,
                            ri,
                            ii,
                            ji,
                            ti + 1,
                            x2,
                            y2,
                        ) && base@.chunk_of(x2, y2) == c;
                    if covered_before(cxi, cyi, ri, ii, ji, ti, x2, y2) {
                        assert(old(self).is_dirty(c));
                        assert(self.is_dirty(c));
                    } else {
                        assert(x2 == tx as int && y2 == ty as int);
                        assert(old(self).in_bounds(tx as int, ty as int));
                        assert(self.is_dirty(c));
                    }
                }
            }
        }
    }

    /// Stamp a filled disk of on pixels centered at `(gx, gy)`: every
    /// offset pair `(i, j)` with `0 <= i, j < radius` and `i*i + j*j <
    /// radius*radius` lights the four reflections `(gx +- i, gy +- j)`,
    /// negative coordinates clamping to zero under saturating
    /// subtraction. An out-of-bounds center makes the whole call a no-op,
    /// and stamped pixels that land out of bounds are dropped by
    /// `set_pixel`'s own guard; the chunks of the in-bounds stamped
    /// pixels join the dirty set.
    #[verifier::loop_isolation(false)]
    pub fn circle(&mut self, gx: u32, gy: u32, radius: u32)
        requires
            old(self).wf(),
            old(self).in_bounds(gx as int, gy as int) ==> radius <= 46341 && gx + radius
                <= u32::MAX && gy + radius <= u32::MAX,
        ensures
            final(self).wf(),
            final(self).width_spec() == old(self).width_spec(),
            final(self).height_spec() == old(self).height_spec(),
            !old(self).in_bounds(gx as int, gy as int) ==> *final(self) == *old(self),
            old(self).in_bounds(gx as int, gy as int) ==> {
                &&& forall|x2: int, y2: int|
                    final(self).in_bounds(x2, y2) ==> (#[trigger] final(self).pixel(x2, y2) == (old(
                        self,
                    ).pixel(x2, y2) || disk_covers(gx as int, gy as int, radius as int, x2, y2)))
                &&& forall|c: usize|
                    #[trigger] final(self).is_dirty(c) <==> old(self).is_dirty(c) || exists|
                        x2: int,
                        y2: int,
                    |
                        old(self).in_bounds(x2, y2) && #[trigger] disk_covers(
                            gx as int,
                            gy as int,
                            radius as int,
                            x2,
                            y2,
                        ) && old(self).chunk_of(x2, y2) == c
            },
    {
        if self.is_oob(gx, gy) {
            return;
        }
        let gbase: Ghost<Canvas> = Ghost(*self);
        let ghost base = gbase@;
        let ghost cxi = gx as int;
        let ghost cyi = gy as int;
        let ghost ri = radius as int;
        proof {
            lemma_covered_none(cxi, cyi, ri);
            assert forall|c: usize| #[trigger]
                self.is_dirty(c) <==> base.is_dirty(c) || exists|x2: int, y2: int|
                    base.in_bounds(x2, y2) && #[trigger] covered_before(
                        cxi,
                        cyi,
                        ri,
                        0,
                        0,
                        0,
                        x2,
                        y2,
                    ) && base.chunk_of(x2, y2) == c by {
                if exists|x2: int, y2: int|
                    base.in_bounds(x2, y2) && #[trigger] covered_before(
                        cxi,
                        cyi,
                        ri,
                        0,
                        0,
                        0,
                        x2,
                        y2,
                    ) && base.chunk_of(x2, y2) == c {
                    let (x2, y2) = choose|x2: int, y2: int|
                        base.in_bounds(x2, y2) && #[trigger] covered_before(
                            cxi,
                            cyi,
                            ri,
                            0,
                            0,
                            0,
                            x2,
                            y2,
                        ) && base.chunk_of(x2, y2) == c;
                    assert(false);
                }
            }
        }
        let mut i: u32 = 0;
        while i < radius
            invariant
                self.wf(),
                base.wf(),
                self.width_spec() == base.width_spec(),
                self.height_spec() == base.height_spec(),
                i <= radius,
                radius <= 46341,
                gx + radius <= u32::MAX,
                gy + radius <= u32::MAX,
                self.stamp_pixels_inv(base, cxi, cyi, ri, i as int, 0, 0),
                self.stamp_dirty_inv(base, cxi, cyi, ri, i as int, 0, 0),
            decreases radius - i,
        {
            let mut j: u32 = 0;
            while j < radius
                invariant
                    self.wf(),
                    base.wf(),
                    self.width_spec() == base.width_spec(),
                    self.height_spec() == base.height_spec(),
                    i < radius,
                    j <= radius,
                    radius <= 46341,
                    gx + radius <= u32::MAX,
                    gy + radius <= u32::MAX,
                    self.stamp_pixels_inv(base, cxi, cyi, ri, i as int, j as int, 0),
                    self.stamp_dirty_inv(base, cxi, cyi, ri, i as int, j as int, 0),
                decreases radius - j,
            {
                proof {
                    assert((i as int) * (i as int) + (j as int) * (j as int) <= 2 * 46340 * 46340)
                        by (nonlinear_arith)
                        requires
                            i < 46341,
                            j < 46341,
                    ;
                    assert((radius as int) * (radius as int) <= 46341 * 46341) by (nonlinear_arith)
                        requires
                            radius <= 46341,
                    ;
                }
                if i * i + j * j < radius * radius {
                    self.stamp(gbase, gx, gy, radius, i, j, 0);
                    self.stamp(gbase, gx, gy, radius, i, j, 1);
                    self.stamp(gbase, gx, gy, radius, i, j, 2);
                    self.stamp(gbase, gx, gy, radius, i, j, 3);
                    proof {
                        lemma_covered_roll_j(cxi, cyi, ri, i as int, j as int);
                        self.lemma_stamp_inv_transfer(
                            base,
                            cxi,
                            cyi,
                            ri,
                            i as int,
                            j as int,
                            4,
                            i as int,
                            j as int + 1,
                            0,
                        );
                    }
                } else {
                    proof {
                        lemma_covered_skip(cxi, cyi, ri, i as int, j as int);
                        self.lemma_stamp_inv_transfer(
                            base,
                            cxi,
                            cyi,
                            ri,
                            i as int,
                            j as int,
                            0,
                            i as int,
                            j as int + 1,
                            0,
                        );
                    }
                }
                j = j + 1;
            }
            proof {
                lemma_covered_roll_i(cxi, cyi, ri, i as int);
                self.lemma_stamp_inv_transfer(
                    base,
                    cxi,
                    cyi,
                    ri,
                    i as int,
                    ri,
                    0,
                    i as int + 1,
                    0,
                    0,
                );
            }
            i = i + 1;
        }
        proof {
            lemma_covered_complete(cxi, cyi, ri);
            assert forall|x2: int, y2: int| self.in_bounds(x2, y2) implies (#[trigger] self.pixel(
                x2,
                y2,
            ) == (base.pixel(x2, y2) || disk_covers(cxi, cyi, ri, x2, y2))) by {
                assert(covered_before(cxi, cyi, ri, ri, 0, 0, x2, y2) <==> disk_covers(
                    cxi,
                    cyi,
                    ri,
                    x2,
                    y2,
                ));
            }
            assert forall|c: usize| #[trigger]
                self.is_dirty(c) <==> base.is_dirty(c) || exists|x2: int, y2: int|
                    base.in_bounds(x2, y2) && #[trigger] disk_covers(cxi, cyi, ri, x2, y2)
                        && base.chunk_of(x2, y2) == c by {
                if self.is_dirty(c) && !base.is_dirty(c) {
                    let (x2, y2) = choose|x2: int, y2: int|
                        base.in_bounds(x2, y2) && #[trigger] covered_before(
                            cxi,
                            cyi,
                            ri,
                            ri,
                            0,
                            0,
                            x2,
                            y2,
                        ) && base.chunk_of(x2, y2) == c;
                    assert(disk_covers(cxi, cyi, ri, x2, y2));
                }
                if exists|x2: int, y2: int|
                    base.in_bounds(x2, y2) && #[trigger] disk_covers(cxi, cyi, ri, x2, y2)
                        && base.chunk_of(x2, y2) == c {
                    let (x2, y2) = choose|x2: int, y2: int|
                        base.in_bounds(x2, y2) && #[trigger] disk_covers(cxi, cyi, ri, x2, y2)
                            && base.chunk_of(x2, y2) == c;
                    assert(covered_before(cxi, cyi, ri, ri, 0, 0, x2, y2));
                }
            }
        }
    }

    /// Return the dirty set and clear it: exactly the chunk indices
    /// mutated since the last drain, without duplicates; pixels are
    /// untouched and a second immediate drain returns nothing.
    pub fn drain_dirty(&mut self) -> (r: Vec<usize>)
        requires
            old(self).wf(),
        ensures
            final(self).wf(),
            final(self).width_spec() == old(self).width_spec(),
            final(self).height_spec() == old(self).height_spec(),
            final(self).chunk_count() == old(self).chunk_count(),
            forall|k: int|
                0 <= k < final(self).chunk_count() ==> #[trigger] final(self).chunk_data(k)
                    == old(self).chunk_data(k),
            r@ == old(self).dirty_list(),
            r@.no_duplicates(),
            forall|k: int| 0 <= k < r@.len() ==> ((#[trigger] r@[k]) as int) < old(self).chunk_count(),
            final(self).dirty_list() == Seq::<usize>::empty(),
    {
        let mut r: Vec<usize> = Vec::new();
        core::mem::swap(&mut r, &mut self.dirty);
        proof {
            assert(forall|k: int|
                0 <= k < self.chunk_count() ==> #[trigger] self.chunk_data(k) == old(
                    self,
                ).chunk_data(k));
        }
        r
    }
}

} // verus!

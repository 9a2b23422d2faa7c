//! A fixed-size square tile of bit-packed binary pixels.
//!
//! A chunk stores `CHUNK_SIZE` rows of `CHUNK_SIZE` pixels, packed eight
//! horizontally adjacent pixels per byte: local pixel `(x, y)` lives in
//! bit `x % 8` of byte `8 * y + x / 8`.

use vstd::prelude::*;

verus! {

/// Edge length, in pixels, of a square chunk.
pub const CHUNK_SIZE: u32 = 64;

/// Bytes of bit-packed storage per chunk: `CHUNK_SIZE` rows of
/// `CHUNK_SIZE / 8` bytes each.
pub const CHUNK_BYTES: usize = 512;

/// The value a caller asks `set_pixel` to store: pixel on or off.
#[derive(Clone, Copy, Debug, PartialEq, Eq, Structural)]
pub enum PixelState {
    On,
    Off,
}

impl PixelState {
    /// Whether this state means the pixel is lit.
    pub open spec fn is_on(self) -> bool {
        self is On
    }

    /// The bit stored for this state.
    pub open spec fn bit_value(self) -> u8 {
        if self is On {
            1u8
        } else {
            0u8
        }
    }

    /// The bit stored for this state.
    pub fn bit(self) -> (b: u8)
        ensures
            b == self.bit_value(),
    {
        match self {
            PixelState::On => 1,
            PixelState::Off => 0,
        }
    }
}

/// Index of the byte that holds local pixel `(x, y)`: row `y` occupies
/// eight bytes.
pub open spec fn byte_pos(x: int, y: int) -> int {
    8 * y + x / 8
}

/// Bit within that byte that holds local pixel `(x, y)`.
pub open spec fn bit_pos(x: int) -> u8 {
    (x % 8) as u8
}

/// Whether bit `i` of byte `b` is set.
pub open spec fn bit_set(b: u8, i: u8) -> bool {
    (b >> i) & 1u8 == 1u8
}

/// Byte `b` with bit `i` forced to the value `v` (0 or 1).
pub open spec fn with_bit(b: u8, i: u8, v: u8) -> u8 {
    (b & !(1u8 << i)) | (v << i)
}

/// Byte `b` with bit `i` toggled.
pub open spec fn toggle_bit(b: u8, i: u8) -> u8 {
    b ^ (1u8 << i)
}

/// Whether local pixel `(x, y)` of bitmap `d` is on.
pub open spec fn pixel_of(d: Seq<u8>, x: int, y: int) -> bool {
    bit_set(d[byte_pos(x, y)], bit_pos(x))
}

/// Bitmap `d` with local pixel `(x, y)` forced to bit value `v`.
pub open spec fn with_pixel(d: Seq<u8>, x: int, y: int, v: u8) -> Seq<u8> {
    d.update(byte_pos(x, y), with_bit(d[byte_pos(x, y)], bit_pos(x), v))
}

/// Bitmap `d` with local pixel `(x, y)` toggled.
pub open spec fn with_flipped_pixel(d: Seq<u8>, x: int, y: int) -> Seq<u8> {
    d.update(byte_pos(x, y), toggle_bit(d[byte_pos(x, y)], bit_pos(x)))
}

/// Whether `(x, y)` is a valid local coordinate.
pub open spec fn local_in_range(x: int, y: int) -> bool {
    0 <= x < CHUNK_SIZE && 0 <= y < CHUNK_SIZE
}

proof fn lemma_with_bit_effect(b: u8, i: u8, v: u8)
    by (bit_vector)
    requires
        i < 8,
        v < 2,
    ensures
        bit_set(with_bit(b, i, v), i) == (v == 1),
        forall|j: u8| j < 8 && j != i ==> #[trigger] bit_set(with_bit(b, i, v), j) == bit_set(b, j),
{
}

proof fn lemma_toggle_bit_effect(b: u8, i: u8)
    by (bit_vector)
    requires
        i < 8,
    ensures
        bit_set(toggle_bit(b, i), i) == !bit_set(b, i),
        forall|j: u8| j < 8 && j != i ==> #[trigger] bit_set(toggle_bit(b, i), j) == bit_set(b, j),
        toggle_bit(toggle_bit(b, i), i) == b,
{
}

/// In-range byte and bit positions: every valid local coordinate maps
/// into the chunk's storage.
pub proof fn lemma_pos_in_range(x: int, y: int)
    requires
        local_in_range(x, y),
    ensures
        0 <= byte_pos(x, y) < CHUNK_BYTES,
        bit_pos(x) < 8,
        0 <= x / 8 < 8,
        x % 8 == bit_pos(x),
{
}

/// The byte/bit addressing of local pixels is injective: two valid local
/// coordinates stored at the same bit of the same byte are equal.
pub proof fn lemma_pos_injective(x1: int, y1: int, x2: int, y2: int)
    requires
        local_in_range(x1, y1),
        local_in_range(x2, y2),
        byte_pos(x1, y1) == byte_pos(x2, y2),
        bit_pos(x1) == bit_pos(x2),
    ensures
        x1 == x2,
        y1 == y2,
{
    lemma_pos_in_range(x1, y1);
    lemma_pos_in_range(x2, y2);
    vstd::arithmetic::div_mod::lemma_fundamental_div_mod_converse(
        byte_pos(x1, y1),
        8,
        y1,
        x1 / 8,
    );
    vstd::arithmetic::div_mod::lemma_fundamental_div_mod_converse(
        byte_pos(x2, y2),
        8,
        y2,
        x2 / 8,
    );
    vstd::arithmetic::div_mod::lemma_fundamental_div_mod(x1, 8);
    vstd::arithmetic::div_mod::lemma_fundamental_div_mod(x2, 8);
}

/// Setting a pixel is exact: the addressed pixel takes exactly the given
/// value (a store, not a toggle), and every other pixel keeps its value.
pub proof fn lemma_with_pixel_effect(d: Seq<u8>, x: int, y: int, v: u8)
    requires
        d.len() == CHUNK_BYTES,
        local_in_range(x, y),
        v < 2,
    ensures
        with_pixel(d, x, y, v).len() == CHUNK_BYTES,
        pixel_of(with_pixel(d, x, y, v), x, y) == (v == 1),
        forall|x2: int, y2: int|
            local_in_range(x2, y2) && !(x2 == x && y2 == y) ==> pixel_of(
                #[trigger] with_pixel(d, x, y, v),
                x2,
                y2,
            ) == pixel_of(d, x2, y2),
{
    lemma_pos_in_range(x, y);
    lemma_with_bit_effect(d[byte_pos(x, y)], bit_pos(x), v);
    assert forall|x2: int, y2: int|
        local_in_range(x2, y2) && !(x2 == x && y2 == y) implies pixel_of(
        with_pixel(d, x, y, v),
        x2,
        y2,
    ) == pixel_of(d, x2, y2) by {
        lemma_pos_in_range(x2, y2);
        if byte_pos(x2, y2) == byte_pos(x, y) {
            if bit_pos(x2) == bit_pos(x) {
                lemma_pos_injective(x, y, x2, y2);
            }
        }
    }
}

/// Flipping a pixel toggles exactly the addressed pixel and keeps every
/// other pixel.
pub proof fn lemma_with_flipped_pixel_effect(d: Seq<u8>, x: int, y: int)
    requires
        d.len() == CHUNK_BYTES,
        local_in_range(x, y),
    ensures
        with_flipped_pixel(d, x, y).len() == CHUNK_BYTES,
        pixel_of(with_flipped_pixel(d, x, y), x, y) == !pixel_of(d, x, y),
        forall|x2: int, y2: int|
            local_in_range(x2, y2) && !(x2 == x && y2 == y) ==> pixel_of(
                #[trigger] with_flipped_pixel(d, x, y),
                x2,
                y2,
            ) == pixel_of(d, x2, y2),
{
    lemma_pos_in_range(x, y);
    lemma_toggle_bit_effect(d[byte_pos(x, y)], bit_pos(x));
    assert forall|x2: int, y2: int|
        local_in_range(x2, y2) && !(x2 == x && y2 == y) implies pixel_of(
        with_flipped_pixel(d, x, y),
        x2,
        y2,
    ) == pixel_of(d, x2, y2) by {
        lemma_pos_in_range(x2, y2);
        if byte_pos(x2, y2) == byte_pos(x, y) {
            if bit_pos(x2) == bit_pos(x) {
                lemma_pos_injective(x, y, x2, y2);
            }
        }
    }
}

/// Flipping the same pixel twice restores the bitmap byte for byte.
pub proof fn lemma_flip_involutive(d: Seq<u8>, x: int, y: int)
    requires
        d.len() == CHUNK_BYTES,
        local_in_range(x, y),
    ensures
        with_flipped_pixel(with_flipped_pixel(d, x, y), x, y) == d,
{
    lemma_pos_in_range(x, y);
    let k = byte_pos(x, y);
    let i = bit_pos(x);
    lemma_toggle_bit_effect(d[k], i);
    assert(with_flipped_pixel(with_flipped_pixel(d, x, y), x, y) =~= d);
}

/// A square tile of `CHUNK_SIZE * CHUNK_SIZE` binary pixels, bit-packed
/// eight per byte.
pub struct Chunk {
    data: Vec<u8>,
}

impl View for Chunk {
    type V = Seq<u8>;

    closed spec fn view(&self) -> Seq<u8> {
        self.data@
    }
}

impl Chunk {
    /// Well-formed: the bitmap holds exactly the chunk's storage bytes.
    pub open spec fn wf(&self) -> bool {
        self@.len() == CHUNK_BYTES
    }

    /// Whether local pixel `(x, y)` is on.
    pub open spec fn pixel(&self, x: int, y: int) -> bool {
        pixel_of(self@, x, y)
    }

    /// A fresh chunk with every pixel off.
    pub fn new() -> (c: Chunk)
        ensures
            c.wf(),
            forall|k: int| 0 <= k < CHUNK_BYTES ==> c@[k] == 0u8,
            forall|x: int, y: int| local_in_range(x, y) ==> !(#[trigger] c.pixel(x, y)),
    {
        let mut data: Vec<u8> = Vec::new();
        let mut i: usize = 0;
        while i < CHUNK_BYTES
            invariant
                i <= CHUNK_BYTES,
                data@.len() == i,
                forall|k: int| 0 <= k < i ==> data@[k] == 0u8,
            decreases CHUNK_BYTES - i,
        {
            data.push(0u8);
            i = i + 1;
        }
        let c = Chunk { data };
        proof {
            assert(forall|i: u8| i < 8 ==> ((0u8 >> i) & 1u8) == 0u8) by (bit_vector);
            assert forall|x: int, y: int| local_in_range(x, y) implies !c.pixel(x, y) by {
                lemma_pos_in_range(x, y);
            }
        }
        c
    }

    /// Whether local pixel `(x, y)` is on, as the stored bit (0 or 1).
    pub fn get_pixel(&self, x: u32, y: u32) -> (r: u8)
        requires
            self.wf(),
            x < CHUNK_SIZE,
            y < CHUNK_SIZE,
        ensures
            r == if self.pixel(x as int, y as int) {
                1u8
            } else {
                0u8
            },
    {
        proof {
            lemma_pos_in_range(x as int, y as int);
        }
        let byte_index: usize = (8 * y + x / 8) as usize;
        let bit: u8 = (x % 8) as u8;
        let b: u8 = self.data[byte_index];
        let r: u8 = (b >> bit) & 1;
        proof {
            assert((b >> bit) & 1u8 == 0u8 || (b >> bit) & 1u8 == 1u8) by (bit_vector);
        }
        r
    }

    /// Store `state` into local pixel `(x, y)`; every other pixel keeps
    /// its value.
    pub fn set_pixel(&mut self, x: u32, y: u32, state: PixelState)
        requires
            old(self).wf(),
            x < CHUNK_SIZE,
            y < CHUNK_SIZE,
        ensures
            final(self).wf(),
            final(self)@ == with_pixel(old(self)@, x as int, y as int, state.bit_value()),
            final(self).pixel(x as int, y as int) == state.is_on(),
            forall|x2: int, y2: int|
                local_in_range(x2, y2) && !(x2 == x && y2 == y) ==> #[trigger] final(self).pixel(
                    x2,
                    y2,
                ) == old(self).pixel(x2, y2),
    {
        proof {
            lemma_pos_in_range(x as int, y as int);
        }
        let byte_index: usize = (8 * y + x / 8) as usize;
        let bit: u8 = (x % 8) as u8;
        let v: u8 = state.bit();
        let b: u8 = self.data[byte_index];
        self.data[byte_index] = (b & !(1u8 << bit)) | (v << bit);
        proof {
            lemma_with_pixel_effect(old(self)@, x as int, y as int, state.bit_value());
        }
    }

    /// Toggle local pixel `(x, y)`; every other pixel keeps its value.
    pub fn flip_pixel(&mut self, x: u32, y: u32)
        requires
            old(self).wf(),
            x < CHUNK_SIZE,
            y < CHUNK_SIZE,
        ensures
            final(self).wf(),
            final(self)@ == with_flipped_pixel(old(self)@, x as int, y as int),
            final(self).pixel(x as int, y as int) == !old(self).pixel(x as int, y as int),
            forall|x2: int, y2: int|
                local_in_range(x2, y2) && !(x2 == x && y2 == y) ==> #[trigger] final(self).pixel(
                    x2,
                    y2,
                ) == old(self).pixel(x2, y2),
    {
        proof {
            lemma_pos_in_range(x as int, y as int);
        }
        let byte_index: usize = (8 * y + x / 8) as usize;
        let bit: u8 = (x % 8) as u8;
        let b: u8 = self.data[byte_index];
        self.data[byte_index] = b ^ (1u8 << bit);
        proof {
            lemma_with_flipped_pixel_effect(old(self)@, x as int, y as int);
        }
    }

    /// Read-only view of the bit-packed rows, for an external renderer to
    /// materialize into an image.
    pub fn snapshot(&self) -> (r: &Vec<u8>)
        ensures
            r@ == self@,
    {
        &self.data
    }

    /// Overwrite the bitmap with bytes drawn from the thread-local random
    /// number generator. Nothing is promised of the resulting pixel
    /// values beyond well-formedness.
    pub fn randomize_data(&mut self)
        requires
            old(self).wf(),
        ensures
            final(self).wf(),
    {
        let mut i: usize = 0;
        while i < CHUNK_BYTES
            invariant
                self.wf(),
                i <= CHUNK_BYTES,
            decreases CHUNK_BYTES - i,
        {
            let r: u8 = rand::random::<u8>();
            self.data[i] = r;
            i = i + 1;
        }
    }
}

/// Relies on rand::random: draws a value from the thread-local generator
/// under the standard distribution. Nothing can be promised of the result.
pub assume_specification<T>[ rand::random::<T> ]() -> (r: T)
    where rand::distributions::Standard: rand::distributions::Distribution<T>,
;

} // verus!

//! Bit-packed display planes and the compositor that owns them.
//!
//! A `Plane` is one monochrome bitmap, packed 8 pixels to the byte in
//! row-major order.  Sprites are XOR-blitted through an 8-pixel window that
//! may straddle two storage bytes and wraps from a row's right edge back to
//! its left edge; scrolling moves whole rows or 4-pixel nibbles with
//! zero-fill on the vacated edge.  A `Display` composes one or two planes
//! through an active-plane mask and a 4-entry palette.

use vstd::prelude::*;
use vstd::arithmetic::div_mod::{
    lemma_fundamental_div_mod, lemma_mod_multiples_vanish, lemma_small_mod,
};
use vstd::arithmetic::mul::lemma_mul_upper_bound;

verus! {

/// Bit `i` of byte `b`, counting bit 0 as the most significant: the
/// convention in which a sprite byte's leftmost pixel is its top bit.
pub open spec fn bit_of(b: u8, i: u8) -> bool
    recommends
        i < 8,
{
    (b >> ((7 - i) as u8)) & 1 == 1
}

/// The 8-pixel window that starts `ob` bits into byte `b1` and runs into
/// byte `b2`: what a byte-misaligned read of the bitmap returns.
pub open spec fn win_byte(b1: u8, b2: u8, ob: u8) -> u8
    recommends
        ob < 8,
{
    (((((b1 as u16) << 8u16) | (b2 as u16)) >> ((8 - ob) as u16)) & 0xFF) as u8
}

/// The first storage byte after writing `v` through the window at offset
/// `ob`: its top `ob` bits are kept, the rest come from `v`.
pub open spec fn set_hi(b1: u8, v: u8, ob: u8) -> u8
    recommends
        ob < 8,
{
    ((b1 as u16) & !(0xFFu16 >> (ob as u16)) | ((v as u16) >> (ob as u16))) as u8
}

/// The second storage byte after writing `v` through the window at offset
/// `ob`: its bottom `8 - ob` bits are kept, its top `ob` bits come from the
/// tail of `v`.
pub open spec fn set_lo(b2: u8, v: u8, ob: u8) -> u8
    recommends
        ob < 8,
{
    ((((b2 as u16) & (0xFFu16 >> (ob as u16))) | (((v as u16) << 8u16) >> (ob as u16))) & 0xFF) as u8
}

/// Reading a window after writing it returns exactly what was written.
pub proof fn lemma_win_roundtrip()
    by (bit_vector)
    ensures
        forall|b1: u8, b2: u8, v: u8, ob: u8|
            ob < 8 ==> #[trigger] win_byte(set_hi(b1, v, ob), set_lo(b2, v, ob), ob) == v,
{
}

/// Writing back the window that was read restores both storage bytes.
pub proof fn lemma_win_restore()
    by (bit_vector)
    ensures
        forall|b1: u8, b2: u8, v: u8, ob: u8|
            ob < 8 ==> #[trigger] set_hi(set_hi(b1, v, ob), win_byte(b1, b2, ob), ob) == b1,
        forall|b1: u8, b2: u8, v: u8, ob: u8|
            ob < 8 ==> #[trigger] set_lo(set_lo(b2, v, ob), win_byte(b1, b2, ob), ob) == b2,
{
}

/// XOR acts bitwise on the window, and AND-collision detects exactly the
/// bits that the XOR cleared.
pub proof fn lemma_xor_and()
    by (bit_vector)
    ensures
        forall|w: u8, s: u8, i: u8| i < 8 ==> #[trigger] bit_of(w ^ s, i) == (bit_of(w, i)
            != bit_of(s, i)),
        forall|w: u8, s: u8, i: u8| i < 8 ==> #[trigger] bit_of(w & s, i) == (bit_of(w, i)
            && bit_of(s, i)),
        forall|w: u8, s: u8| ((w ^ s) & s) == (s & !w),
        forall|w: u8, s: u8| (w ^ s) ^ s == w,
{
}

/// A byte is nonzero exactly when one of its eight bits is set.
pub proof fn lemma_byte_nonzero()
    by (bit_vector)
    ensures
        forall|b: u8|
            (b != 0) == (bit_of(b, 0) || bit_of(b, 1) || bit_of(b, 2) || bit_of(b, 3) || bit_of(
                b,
                4,
            ) || bit_of(b, 5) || bit_of(b, 6) || bit_of(b, 7)),
        forall|j: u8| !bit_of(0u8, j),
{
}

/// Shifting a byte pair by a nibble moves each bit four columns over:
/// the top half of the result comes from one byte, the bottom from the
/// other, and the vacated edge reads zero.
pub proof fn lemma_nibble_shift()
    by (bit_vector)
    ensures
        forall|a: u8, b: u8, j: u8|
            j < 8 ==> #[trigger] bit_of((b >> 4u8) | (a << 4u8), j) == (if j < 4 {
                bit_of(a, (j + 4) as u8)
            } else {
                bit_of(b, (j - 4) as u8)
            }),
        forall|a: u8, b: u8, j: u8|
            j < 8 ==> #[trigger] bit_of((a << 4u8) | (b >> 4u8), j) == (if j < 4 {
                bit_of(a, (j + 4) as u8)
            } else {
                bit_of(b, (j - 4) as u8)
            }),
        forall|b: u8, j: u8|
            j < 8 ==> #[trigger] bit_of(b >> 4u8, j) == (j >= 4 && bit_of(b, (j - 4) as u8)),
        forall|a: u8, j: u8|
            j < 8 ==> #[trigger] bit_of(a << 4u8, j) == (j < 4 && bit_of(a, (j + 4) as u8)),
{
}

/// One bit-packed monochrome bitmap.  `width` is a multiple of 8; row `y`
/// occupies bytes `y * width / 8 ..< (y + 1) * width / 8` of `cells`.
#[derive(Debug)]
pub struct Plane {
    pub cells: Vec<u8>,
    pub width: usize,
    pub height: usize,
}

impl Plane {
    /// Dimensions a plane can take: at least two storage bytes per row (so
    /// a window's two bytes are distinct), at most the extended 128 x 64.
    pub open spec fn wf(&self) -> bool {
        &&& self.width % 8 == 0
        &&& 16 <= self.width <= 128
        &&& 1 <= self.height <= 64
        &&& self.cells@.len() == self.height as int * self.row_bytes()
    }

    /// Storage bytes per row.
    pub open spec fn row_bytes(&self) -> int {
        self.width as int / 8
    }

    /// The pixel in column `x` of row `y`.
    pub open spec fn pixel(&self, x: int, y: int) -> bool
        recommends
            0 <= x < self.width,
            0 <= y < self.height,
    {
        bit_of(self.cells@[y * self.row_bytes() + x / 8], (x % 8) as u8)
    }

    /// The 8-pixel window of row `y` that starts in column `x`, wrapping at
    /// the row's right edge.
    pub open spec fn window(&self, x: int, y: int) -> u8
        recommends
            0 <= x < self.width,
            0 <= y < self.height,
    {
        win_byte(
            self.cells@[y * self.row_bytes() + x / 8],
            self.cells@[y * self.row_bytes() + (x / 8 + 1) % self.row_bytes()],
            (x % 8) as u8,
        )
    }

    /// An all-zero plane of the given dimensions.
    pub fn new(height: usize, width: usize) -> (p: Plane)
        requires
            width % 8 == 0,
            16 <= width <= 128,
            1 <= height <= 64,
        ensures
            p.wf(),
            p.width == width,
            p.height == height,
            forall|i: int| 0 <= i < p.cells@.len() ==> p.cells@[i] == 0u8,
    {
        let rb: usize = width / 8;
        proof {
            lemma_mul_upper_bound(height as int, 64, rb as int, 16);
        }
        let n: usize = height * rb;
        let mut cells: Vec<u8> = Vec::new();
        let mut i: usize = 0;
        while i < n
            invariant
                i <= n,
                cells@.len() == i,
                forall|k: int| 0 <= k < i ==> cells@[k] == 0u8,
            decreases n - i,
        {
            cells.push(0u8);
            i += 1;
        }
        Plane { cells, width, height }
    }

    /// Clears every pixel.
    pub fn clear(&mut self)
        requires
            old(self).wf(),
        ensures
            final(self).wf(),
            final(self).width == old(self).width,
            final(self).height == old(self).height,
            final(self).cells@.len() == old(self).cells@.len(),
            forall|i: int| 0 <= i < final(self).cells@.len() ==> final(self).cells@[i] == 0u8,
    {
        let n = self.cells.len();
        let mut i: usize = 0;
        while i < n
            invariant
                i <= n,
                self.cells@.len() == n,
                self.width == old(self).width,
                self.height == old(self).height,
                forall|k: int| 0 <= k < i ==> self.cells@[k] == 0u8,
            decreases n - i,
        {
            self.cells[i] = 0u8;
            i += 1;
        }
    }

    /// Copies the storage bytes of row `src` over row `dst`.
    fn copy_row(&mut self, dst: usize, src: usize)
        requires
            old(self).wf(),
            dst < old(self).height,
            src < old(self).height,
        ensures
            final(self).wf(),
            final(self).width == old(self).width,
            final(self).height == old(self).height,
            forall|i: int|
                0 <= i < final(self).cells@.len() ==> final(self).cells@[i] == (if dst as int
                    * old(self).row_bytes() <= i < dst as int * old(self).row_bytes() + old(
                    self,
                ).row_bytes() {
                    old(self).cells@[i - dst as int * old(self).row_bytes() + src as int * old(
                        self,
                    ).row_bytes()]
                } else {
                    old(self).cells@[i]
                }),
    {
        let rb: usize = self.width / 8;
        let total: usize = self.cells.len();
        proof {
            lemma_row_fits(dst as int, self.height as int, rb as int);
            lemma_row_fits(src as int, self.height as int, rb as int);
        }
        let mut k: usize = 0;
        while k < rb
            invariant
                self.wf(),
                self.width == old(self).width,
                self.height == old(self).height,
                rb as int == self.row_bytes(),
                total == self.cells@.len(),
                k <= rb,
                dst < self.height,
                src < self.height,
                (dst as int) * (rb as int) + (rb as int) <= self.cells@.len(),
                (src as int) * (rb as int) + (rb as int) <= self.cells@.len(),
                forall|i: int|
                    0 <= i < self.cells@.len() ==> self.cells@[i] == (if (dst as int) * (
                    rb as int) <= i < (dst as int) * (rb as int) + k {
                        old(self).cells@[i - (dst as int) * (rb as int) + (src as int) * (
                        rb as int)]
                    } else {
                        old(self).cells@[i]
                    }),
            decreases rb - k,
        {
            proof {
                if dst != src {
                    assert((dst as int) * (rb as int) + (rb as int) <= (src as int) * (rb as int)
                        || (src as int) * (rb as int) + (rb as int) <= (dst as int) * (rb as int))
                        by (nonlinear_arith)
                        requires
                            dst != src,
                            0 < rb,
                    ;
                }
            }
            let v: u8 = self.cells[src * rb + k];
            self.cells[dst * rb + k] = v;
            k += 1;
        }
    }

    /// Zeroes the storage bytes of row `y`.
    fn zero_row(&mut self, y: usize)
        requires
            old(self).wf(),
            y < old(self).height,
        ensures
            final(self).wf(),
            final(self).width == old(self).width,
            final(self).height == old(self).height,
            forall|i: int|
                0 <= i < final(self).cells@.len() ==> final(self).cells@[i] == (if y as int * old(
                    self,
                ).row_bytes() <= i < y as int * old(self).row_bytes() + old(self).row_bytes() {
                    0u8
                } else {
                    old(self).cells@[i]
                }),
    {
        let rb: usize = self.width / 8;
        let total: usize = self.cells.len();
        proof {
            lemma_row_fits(y as int, self.height as int, rb as int);
        }
        let mut k: usize = 0;
        while k < rb
            invariant
                self.wf(),
                self.width == old(self).width,
                self.height == old(self).height,
                rb as int == self.row_bytes(),
                total == self.cells@.len(),
                k <= rb,
                y < self.height,
                (y as int) * (rb as int) + (rb as int) <= self.cells@.len(),
                forall|i: int|
                    0 <= i < self.cells@.len() ==> self.cells@[i] == (if (y as int) * (rb as int)
                        <= i < (y as int) * (rb as int) + k {
                        0u8
                    } else {
                        old(self).cells@[i]
                    }),
            decreases rb - k,
        {
            self.cells[y * rb + k] = 0u8;
            k += 1;
        }
    }

    /// Scrolls the bitmap down by `n` rows with zero-fill at the top.
    pub fn scroll_down(&mut self, n: u8)
        requires
            old(self).wf(),
            n <= old(self).height,
        ensures
            final(self).wf(),
            final(self).width == old(self).width,
            final(self).height == old(self).height,
            forall|x: int, y: int|
                0 <= x < old(self).width && 0 <= y < old(self).height ==> final(self).pixel(x, y)
                    == (y >= n && old(self).pixel(x, y - n)),
    {
        let h: usize = self.height;
        let nn: usize = n as usize;
        let mut y: usize = h;
        while y > nn
            invariant
                self.wf(),
                self.width == old(self).width,
                self.height == old(self).height,
                nn <= y <= h,
                h == self.height,
                nn == n as usize,
                nn <= h,
                forall|i: int|
                    y as int * self.row_bytes() <= i < self.cells@.len() ==> self.cells@[i] == old(
                        self,
                    ).cells@[i - nn as int * self.row_bytes()],
                forall|i: int|
                    0 <= i < y as int * self.row_bytes() ==> self.cells@[i] == old(self).cells@[i],
            decreases y,
        {
            y -= 1;
            self.copy_row(y, y - nn);
            proof {
                let rbx = self.row_bytes();
                lemma_row_linear(y as int, nn as int, rbx);
                vstd::arithmetic::mul::lemma_mul_inequality(nn as int, y as int, rbx);
                lemma_row_fits(y as int, h as int, rbx);
            }
        }
        let mut z: usize = 0;
        while z < nn
            invariant
                self.wf(),
                self.width == old(self).width,
                self.height == old(self).height,
                z <= nn,
                nn == n as usize,
                nn <= self.height,
                forall|i: int|
                    nn as int * self.row_bytes() <= i < self.cells@.len() ==> self.cells@[i] == old(
                        self,
                    ).cells@[i - nn as int * self.row_bytes()],
                forall|i: int|
                    z as int * self.row_bytes() <= i < nn as int * self.row_bytes()
                        ==> self.cells@[i] == old(self).cells@[i],
                forall|i: int|
                    0 <= i < z as int * self.row_bytes() ==> self.cells@[i] == 0u8,
            decreases nn - z,
        {
            self.zero_row(z);
            proof {
                let rbx = self.row_bytes();
                lemma_row_linear(z as int, 0, rbx);
                vstd::arithmetic::mul::lemma_mul_inequality(z as int + 1, nn as int, rbx);
                vstd::arithmetic::mul::lemma_mul_inequality(nn as int, self.height as int, rbx);
                lemma_row_fits(z as int, self.height as int, rbx);
            }
            z += 1;
        }
        proof {
            lemma_pixel_shift(old(self), self, n as int);
        }
    }

    /// Scrolls the bitmap up by `n` rows with zero-fill at the bottom.
    pub fn scroll_up(&mut self, n: u8)
        requires
            old(self).wf(),
            n <= old(self).height,
        ensures
            final(self).wf(),
            final(self).width == old(self).width,
            final(self).height == old(self).height,
            forall|x: int, y: int|
                0 <= x < old(self).width && 0 <= y < old(self).height ==> final(self).pixel(x, y)
                    == (y < old(self).height - n && old(self).pixel(x, y + n)),
    {
        let h: usize = self.height;
        let nn: usize = n as usize;
        let mut y: usize = 0;
        while y < h - nn
            invariant
                self.wf(),
                self.width == old(self).width,
                self.height == old(self).height,
                y <= h - nn,
                h == self.height,
                nn == n as usize,
                nn <= h,
                forall|i: int|
                    0 <= i < y as int * self.row_bytes() ==> self.cells@[i] == old(self).cells@[i
                        + nn as int * self.row_bytes()],
                forall|i: int|
                    y as int * self.row_bytes() <= i < self.cells@.len() ==> self.cells@[i] == old(
                        self,
                    ).cells@[i],
            decreases h - nn - y,
        {
            self.copy_row(y, y + nn);
            proof {
                let rbx = self.row_bytes();
                lemma_row_linear(y as int, nn as int, rbx);
                lemma_row_fits(y as int, h as int, rbx);
                lemma_row_fits((y + nn) as int, h as int, rbx);
                vstd::arithmetic::mul::lemma_mul_inequality(y as int + 1, (h - nn) as int, rbx);
            }
            y += 1;
        }
        let mut z: usize = h - nn;
        while z < h
            invariant
                self.wf(),
                self.width == old(self).width,
                self.height == old(self).height,
                h - nn <= z <= h,
                h == self.height,
                nn == n as usize,
                nn <= h,
                forall|i: int|
                    0 <= i < (h - nn) as int * self.row_bytes() ==> self.cells@[i] == old(
                        self,
                    ).cells@[i + nn as int * self.row_bytes()],
                forall|i: int|
                    (h - nn) as int * self.row_bytes() <= i < z as int * self.row_bytes()
                        ==> self.cells@[i] == 0u8,
                forall|i: int|
                    z as int * self.row_bytes() <= i < self.cells@.len() ==> self.cells@[i] == old(
                        self,
                    ).cells@[i],
            decreases h - z,
        {
            self.zero_row(z);
            proof {
                let rbx = self.row_bytes();
                lemma_row_linear(z as int, nn as int, rbx);
                lemma_row_linear(z as int, 0, rbx);
                lemma_row_fits(z as int, h as int, rbx);
                vstd::arithmetic::mul::lemma_mul_inequality((h - nn) as int, z as int, rbx);
                vstd::arithmetic::mul::lemma_mul_inequality(z as int + 1, h as int, rbx);
            }
            z += 1;
        }
        proof {
            lemma_pixel_shift_up(old(self), self, n as int);
        }
    }

    /// Scrolls the bitmap right by 4 pixels with zero-fill at the left
    /// edge of each row.
    pub fn scroll_right(&mut self)
        requires
            old(self).wf(),
        ensures
            final(self).wf(),
            final(self).width == old(self).width,
            final(self).height == old(self).height,
            forall|x: int, y: int|
                0 <= x < old(self).width && 0 <= y < old(self).height ==> final(self).pixel(x, y)
                    == (x >= 4 && old(self).pixel(x - 4, y)),
    {
        let h: usize = self.height;
        let rb: usize = self.width / 8;
        let total: usize = self.cells.len();
        proof {
            vstd::arithmetic::div_mod::lemma_div_is_ordered(16, self.width as int, 8);
        }
        let mut y: usize = 0;
        while y < h
            invariant
                self.wf(),
                self.width == old(self).width,
                self.height == old(self).height,
                y <= h,
                h == self.height,
                rb as int == self.row_bytes(),
                2 <= rb,
                total == self.cells@.len(),
                total == h as int * (rb as int),
                forall|i: int|
                    0 <= i < y as int * (rb as int) ==> self.cells@[i] == right_byte(
                        old(self).cells@,
                        rb as int,
                        i,
                    ),
                forall|i: int|
                    y as int * (rb as int) <= i < self.cells@.len() ==> self.cells@[i] == old(
                        self,
                    ).cells@[i],
            decreases h - y,
        {
            proof {
                lemma_row_fits(y as int, h as int, rb as int);
            }
            let base: usize = y * rb;
            let mut k: usize = rb;
            while k > 1
                invariant
                    self.wf(),
                    self.width == old(self).width,
                    self.height == old(self).height,
                    1 <= k <= rb,
                    y < h,
                    h == self.height,
                    rb as int == self.row_bytes(),
                    2 <= rb,
                    total == self.cells@.len(),
                    base == y as int * (rb as int),
                    base + rb <= total,
                    forall|i: int|
                        0 <= i < base ==> self.cells@[i] == right_byte(
                            old(self).cells@,
                            rb as int,
                            i,
                        ),
                    forall|i: int|
                        base + k <= i < base + rb ==> self.cells@[i] == right_byte(
                            old(self).cells@,
                            rb as int,
                            i,
                        ),
                    forall|i: int|
                        base <= i < base + k ==> self.cells@[i] == old(self).cells@[i],
                    forall|i: int|
                        base + rb <= i < self.cells@.len() ==> self.cells@[i] == old(
                            self,
                        ).cells@[i],
                decreases k,
            {
                k -= 1;
                proof {
                    lemma_index_bounds(h as int, rb as int, y as int, k as int);
                }
                let v: u8 = (self.cells[base + k] >> 4u8) | (self.cells[base + k - 1] << 4u8);
                self.cells[base + k] = v;
            }
            proof {
                lemma_index_bounds(h as int, rb as int, y as int, 0);
            }
            let v0: u8 = self.cells[base] >> 4u8;
            self.cells[base] = v0;
            proof {
                lemma_row_linear(y as int, 0, rb as int);
            }
            y += 1;
        }
        proof {
            lemma_pixel_nibble_right(old(self), self);
        }
    }

    /// Scrolls the bitmap left by 4 pixels with zero-fill at the right
    /// edge of each row.
    pub fn scroll_left(&mut self)
        requires
            old(self).wf(),
        ensures
            final(self).wf(),
            final(self).width == old(self).width,
            final(self).height == old(self).height,
            forall|x: int, y: int|
                0 <= x < old(self).width && 0 <= y < old(self).height ==> final(self).pixel(x, y)
                    == (x < old(self).width - 4 && old(self).pixel(x + 4, y)),
    {
        let h: usize = self.height;
        let rb: usize = self.width / 8;
        let total: usize = self.cells.len();
        proof {
            vstd::arithmetic::div_mod::lemma_div_is_ordered(16, self.width as int, 8);
        }
        let mut y: usize = 0;
        while y < h
            invariant
                self.wf(),
                self.width == old(self).width,
                self.height == old(self).height,
                y <= h,
                h == self.height,
                rb as int == self.row_bytes(),
                2 <= rb,
                total == self.cells@.len(),
                total == h as int * (rb as int),
                forall|i: int|
                    0 <= i < y as int * (rb as int) ==> self.cells@[i] == left_byte(
                        old(self).cells@,
                        rb as int,
                        i,
                    ),
                forall|i: int|
                    y as int * (rb as int) <= i < self.cells@.len() ==> self.cells@[i] == old(
                        self,
                    ).cells@[i],
            decreases h - y,
        {
            proof {
                lemma_row_fits(y as int, h as int, rb as int);
            }
            let base: usize = y * rb;
            let mut k: usize = 0;
            while k < rb - 1
                invariant
                    self.wf(),
                    self.width == old(self).width,
                    self.height == old(self).height,
                    k <= rb - 1,
                    y < h,
                    h == self.height,
                    rb as int == self.row_bytes(),
                    2 <= rb,
                    total == self.cells@.len(),
                    base == y as int * (rb as int),
                    base + rb <= total,
                    forall|i: int|
                        0 <= i < base ==> self.cells@[i] == left_byte(
                            old(self).cells@,
                            rb as int,
                            i,
                        ),
                    forall|i: int|
                        base <= i < base + k ==> self.cells@[i] == left_byte(
                            old(self).cells@,
                            rb as int,
                            i,
                        ),
                    forall|i: int|
                        base + k <= i < self.cells@.len() ==> self.cells@[i] == old(
                            self,
                        ).cells@[i],
                decreases rb - 1 - k,
            {
                proof {
                    lemma_index_bounds(h as int, rb as int, y as int, k as int);
                }
                let v: u8 = (self.cells[base + k] << 4u8) | (self.cells[base + k + 1] >> 4u8);
                self.cells[base + k] = v;
                k += 1;
            }
            proof {
                lemma_index_bounds(h as int, rb as int, y as int, rb as int - 1);
            }
            let vl: u8 = self.cells[base + (rb - 1)] << 4u8;
            self.cells[base + (rb - 1)] = vl;
            proof {
                lemma_row_linear(y as int, 0, rb as int);
            }
            y += 1;
        }
        proof {
            lemma_pixel_nibble_left(old(self), self);
        }
    }

    /// XOR-blits `sprite` with its top-left pixel at `(x mod width,
    /// y mod height)`, one byte per row, wrapping both horizontally and
    /// vertically.  Returns whether any already-set pixel was cleared.
    pub fn write_sprite(&mut self, sprite: &[u8], x: u8, y: u8) -> (collision: bool)
        requires
            old(self).wf(),
            sprite@.len() <= old(self).height,
        ensures
            final(self).wf(),
            final(self).width == old(self).width,
            final(self).height == old(self).height,
            sprite_applied(old(self), final(self), sprite@, x, y),
            collision == sprite_collides(old(self), sprite@, x, y),
    {
        let w8: u8 = self.width as u8;
        let h8: u8 = self.height as u8;
        let x0: u8 = x % w8;
        let y0: u8 = y % h8;
        let h: usize = self.height;
        let len: usize = sprite.len();
        let ghost pre = *self;
        let ghost ww = self.width as int;
        let ghost hh = self.height as int;
        let ghost rb = self.row_bytes();
        let ghost k1 = (x0 as int) / 8;
        let ghost k2 = (k1 + 1) % rb;
        let ghost ob = ((x0 as int) % 8) as u8;
        let mut collision: bool = false;
        let mut ii: usize = 0;
        while ii < len
            invariant
                self.wf(),
                self.width == pre.width,
                self.height == pre.height,
                self.cells@.len() == pre.cells@.len(),
                pre.wf(),
                ii <= len,
                len == sprite@.len(),
                len <= hh,
                h == hh,
                ww == pre.width as int,
                hh == pre.height as int,
                rb == pre.row_bytes(),
                x0 == x as int % ww,
                y0 == y as int % hh,
                0 <= x0 < ww,
                0 <= y0 < hh,
                k1 == (x0 as int) / 8,
                k2 == (k1 + 1) % rb,
                ob == ((x0 as int) % 8) as u8,
                forall|i: int|
                    0 <= i < pre.cells@.len() && ((i / rb - y0) % hh >= ii || (i % rb != k1 && i
                        % rb != k2)) ==> #[trigger] self.cells@[i] == pre.cells@[i],
                forall|jj: int|
                    0 <= jj < ii ==> self.cells@[#[trigger] sprite_row(y0 as int, jj, hh) * rb
                        + k1] == set_hi(
                        pre.cells@[sprite_row(y0 as int, jj, hh) * rb + k1],
                        pre.window(x0 as int, sprite_row(y0 as int, jj, hh)) ^ sprite@[jj],
                        ob,
                    ) && self.cells@[sprite_row(y0 as int, jj, hh) * rb + k2] == set_lo(
                        pre.cells@[sprite_row(y0 as int, jj, hh) * rb + k2],
                        pre.window(x0 as int, sprite_row(y0 as int, jj, hh)) ^ sprite@[jj],
                        ob,
                    ),
                collision == exists|jj: int|
                    0 <= jj < ii && (pre.window(
                        x0 as int,
                        #[trigger] sprite_row(y0 as int, jj, hh),
                    ) & sprite@[jj]) != 0,
            decreases len - ii,
        {
            let yr: u8 = ((y0 as usize + ii) % h) as u8;
            proof {
                lemma_neighbor_distinct(k1, rb);
                lemma_wrap_row(y0 as int, ii as int, hh);
                assert(yr as int == sprite_row(y0 as int, ii as int, hh));
                lemma_index_bounds(hh, rb, yr as int, k1);
                lemma_index_bounds(hh, rb, yr as int, k2);
                vstd::arithmetic::div_mod::lemma_mod_bound(k1 + 1, rb);
                assert((yr as int - y0) % hh == ii as int);
                assert(self.cells@[yr as int * rb + k1] == pre.cells@[yr as int * rb + k1]);
                assert(self.cells@[yr as int * rb + k2] == pre.cells@[yr as int * rb + k2]);
                assert(self.window(x0 as int, yr as int) == pre.window(x0 as int, yr as int));
            }
            let cur: u8 = self.get_byte(x0, yr);
            let sb: u8 = sprite[ii];
            let nv: u8 = cur ^ sb;
            if cur & sb != 0 {
                collision = true;
            }
            self.set_byte(x0, yr, nv);
            proof {
                lemma_index_bounds(hh, rb, yr as int, k1);
                lemma_index_bounds(hh, rb, yr as int, k2);
                assert forall|i: int|
                    0 <= i < pre.cells@.len() && ((i / rb - y0) % hh >= ii as int + 1 || (i % rb
                        != k1 && i % rb != k2)) implies self.cells@[i] == pre.cells@[i] by {
                    assert(i != yr as int * rb + k1 && i != yr as int * rb + k2);
                }
                assert(sprite_row(y0 as int, ii as int, hh) == yr as int);
                assert(self.cells@[yr as int * rb + k1] == set_hi(
                    pre.cells@[yr as int * rb + k1],
                    pre.window(x0 as int, yr as int) ^ sprite@[ii as int],
                    ob,
                ));
                assert(self.cells@[yr as int * rb + k2] == set_lo(
                    pre.cells@[yr as int * rb + k2],
                    pre.window(x0 as int, yr as int) ^ sprite@[ii as int],
                    ob,
                ));
                assert forall|jj: int| 0 <= jj < ii as int implies {
                    let ry = #[trigger] sprite_row(y0 as int, jj, hh);
                    self.cells@[ry * rb + k1] == set_hi(
                        pre.cells@[ry * rb + k1],
                        pre.window(x0 as int, ry) ^ sprite@[jj],
                        ob,
                    ) && self.cells@[ry * rb + k2] == set_lo(
                        pre.cells@[ry * rb + k2],
                        pre.window(x0 as int, ry) ^ sprite@[jj],
                        ob,
                    )
                } by {
                    lemma_wrap_row(y0 as int, jj, hh);
                    let ry = sprite_row(y0 as int, jj, hh);
                    lemma_index_bounds(hh, rb, ry, k1);
                    lemma_index_bounds(hh, rb, ry, k2);
                    assert(ry != yr as int);
                    assert(ry * rb + k1 != yr as int * rb + k1);
                    assert(ry * rb + k1 != yr as int * rb + k2);
                    assert(ry * rb + k2 != yr as int * rb + k1);
                    assert(ry * rb + k2 != yr as int * rb + k2);
                }
            }
            ii += 1;
        }
        collision
    }

    /// XOR-blits a 16x16 sprite given as 32 bytes in row-major order, two
    /// bytes per row: the even bytes form the left half drawn at `x`, the
    /// odd bytes the right half drawn 8 pixels further.
    pub fn write_sprite16(&mut self, sprite: &[u8], x: u8, y: u8) -> (collision: bool)
        requires
            old(self).wf(),
            sprite@.len() == 32,
            old(self).height >= 16,
        ensures
            final(self).wf(),
            final(self).width == old(self).width,
            final(self).height == old(self).height,
            sprite16_applied(old(self), final(self), sprite@, x, y, collision),
    {
        let mut left: Vec<u8> = Vec::new();
        let mut right: Vec<u8> = Vec::new();
        let mut i: usize = 0;
        while i < 16
            invariant
                i <= 16,
                sprite@.len() == 32,
                left@.len() == i,
                right@.len() == i,
                forall|j: int| 0 <= j < i ==> left@[j] == sprite@[2 * j],
                forall|j: int| 0 <= j < i ==> right@[j] == sprite@[2 * j + 1],
            decreases 16 - i,
        {
            left.push(sprite[2 * i]);
            right.push(sprite[2 * i + 1]);
            i += 1;
        }
        let xr: u8 = (((x as u16) + 8) % 256) as u8;
        let c1: bool = self.write_sprite(left.as_slice(), x, y);
        let ghost mid = *self;
        let c2: bool = self.write_sprite(right.as_slice(), xr, y);
        proof {
            assert(left@ =~= sprite16_left(sprite@));
            assert(right@ =~= sprite16_right(sprite@));
            assert(sprite_applied(old(self), &mid, sprite16_left(sprite@), x, y));
            assert(sprite_applied(&mid, self, sprite16_right(sprite@), xr, y));
        }
        c1 || c2
    }

    /// Reads the 8-pixel window of row `y` that starts in column `x`.
    /// The window may straddle two storage bytes; at the row's right edge
    /// it wraps back to the row's first byte.
    pub fn get_byte(&self, x: u8, y: u8) -> (r: u8)
        requires
            self.wf(),
            x < self.width,
            y < self.height,
        ensures
            r == self.window(x as int, y as int),
    {
        let offs_bytes: usize = x as usize / 8;
        let offs_bits: u16 = x as u16 % 8;
        let rb: usize = self.width / 8;
        proof {
            lemma_mul_upper_bound(y as int, 63, rb as int, 16);
        }
        let line_offs: usize = y as usize * rb;
        proof {
            lemma_index_bounds(self.height as int, self.row_bytes(), y as int, offs_bytes as int);
            lemma_index_bounds(
                self.height as int,
                self.row_bytes(),
                y as int,
                ((offs_bytes + 1) as int % self.row_bytes()),
            );
        }

        let word: u16 = (self.cells[line_offs + offs_bytes] as u16) << 8u16 | (self.cells[line_offs
            + (offs_bytes + 1) % rb] as u16);
        let res: u8 = ((word >> (8 - offs_bits)) & 0xFF) as u8;
        res
    }

    /// Writes `val` through the 8-pixel window of row `y` that starts in
    /// column `x`; pixels outside the window keep their value.
    pub fn set_byte(&mut self, x: u8, y: u8, val: u8)
        requires
            old(self).wf(),
            x < old(self).width,
            y < old(self).height,
        ensures
            final(self).wf(),
            final(self).width == old(self).width,
            final(self).height == old(self).height,
            final(self).cells@ == old(self).cells@.update(
                y as int * old(self).row_bytes() + x as int / 8,
                set_hi(
                    old(self).cells@[y as int * old(self).row_bytes() + x as int / 8],
                    val,
                    (x as int % 8) as u8,
                ),
            ).update(
                y as int * old(self).row_bytes() + (x as int / 8 + 1) % old(self).row_bytes(),
                set_lo(
                    old(self).cells@[y as int * old(self).row_bytes() + (x as int / 8 + 1) % old(
                        self,
                    ).row_bytes()],
                    val,
                    (x as int % 8) as u8,
                ),
            ),
    {
        let offs_bytes: usize = x as usize / 8;
        let offs_bits: u16 = x as u16 % 8;
        let rb: usize = self.width / 8;
        proof {
            lemma_mul_upper_bound(y as int, 63, rb as int, 16);
        }
        let line_offs: usize = y as usize * rb;
        proof {
            lemma_index_bounds(self.height as int, self.row_bytes(), y as int, offs_bytes as int);
            lemma_index_bounds(
                self.height as int,
                self.row_bytes(),
                y as int,
                ((offs_bytes + 1) as int % self.row_bytes()),
            );
        }

        let b1: u8 = self.cells[line_offs + offs_bytes];
        let b2: u8 = self.cells[line_offs + (offs_bytes + 1) % rb];
        let hi: u8 = (b1 as u16 & !(0xFFu16 >> offs_bits) | ((val as u16) >> offs_bits)) as u8;
        let lo: u8 = (((b2 as u16 & (0xFFu16 >> offs_bits)) | (((val as u16) << 8u16)
            >> offs_bits)) & 0xFF) as u8;
        self.cells[line_offs + offs_bytes] = hi;
        self.cells[line_offs + (offs_bytes + 1) % rb] = lo;
    }
}

/// One storage byte of a row after a 4-pixel scroll to the right: the top
/// nibble comes from the previous byte of the row, or reads zero at the
/// row's first byte.
pub open spec fn right_byte(pre: Seq<u8>, rb: int, i: int) -> u8 {
    if i % rb == 0 {
        pre[i] >> 4u8
    } else {
        (pre[i] >> 4u8) | (pre[i - 1] << 4u8)
    }
}

/// One storage byte of a row after a 4-pixel scroll to the left: the
/// bottom nibble comes from the next byte of the row, or reads zero at the
/// row's last byte.
pub open spec fn left_byte(pre: Seq<u8>, rb: int, i: int) -> u8 {
    if i % rb == rb - 1 {
        pre[i] << 4u8
    } else {
        (pre[i] << 4u8) | (pre[i + 1] >> 4u8)
    }
}

/// The row a sprite's `ii`-th byte lands on when drawn starting at row
/// `y0`, wrapping vertically.
pub open spec fn sprite_row(y0: int, ii: int, h: int) -> int {
    (y0 + ii) % h
}

/// The XOR-blit relation between a plane before and after drawing
/// `sprite` with its top-left pixel at `(x mod width, y mod height)`:
/// every sprite byte is XORed through the 8-pixel window of its row, and
/// every byte outside those windows is untouched.
pub open spec fn sprite_applied(pre: &Plane, post: &Plane, sprite: Seq<u8>, x: u8, y: u8) -> bool {
    let w = pre.width as int;
    let h = pre.height as int;
    let rb = pre.row_bytes();
    let x0 = x as int % w;
    let y0 = y as int % h;
    let k1 = x0 / 8;
    let k2 = (k1 + 1) % rb;
    let ob = (x0 % 8) as u8;
    &&& post.cells@.len() == pre.cells@.len()
    &&& forall|i: int|
        0 <= i < pre.cells@.len() && ((i / rb - y0) % h >= sprite.len() || (i % rb != k1 && i % rb
            != k2)) ==> #[trigger] post.cells@[i] == pre.cells@[i]
    &&& forall|ii: int|
        0 <= ii < sprite.len() ==> post.cells@[#[trigger] sprite_row(y0, ii, h) * rb + k1]
            == set_hi(
            pre.cells@[sprite_row(y0, ii, h) * rb + k1],
            pre.window(x0, sprite_row(y0, ii, h)) ^ sprite[ii],
            ob,
        ) && post.cells@[sprite_row(y0, ii, h) * rb + k2] == set_lo(
            pre.cells@[sprite_row(y0, ii, h) * rb + k2],
            pre.window(x0, sprite_row(y0, ii, h)) ^ sprite[ii],
            ob,
        )
}

/// The even-indexed bytes of a 32-byte sprite: its left 8-pixel columns.
pub open spec fn sprite16_left(sprite: Seq<u8>) -> Seq<u8> {
    Seq::new(16, |j: int| sprite[2 * j])
}

/// The odd-indexed bytes of a 32-byte sprite: its right 8-pixel columns.
pub open spec fn sprite16_right(sprite: Seq<u8>) -> Seq<u8> {
    Seq::new(16, |j: int| sprite[2 * j + 1])
}

/// The two-pass XOR-blit of a 16x16 sprite: the left half applied at `x`,
/// then the right half at `x + 8` (wrapping as 8-bit arithmetic does), with
/// `c` reporting whether either pass cleared a set pixel.
pub open spec fn sprite16_applied(
    pre: &Plane,
    post: &Plane,
    sprite: Seq<u8>,
    x: u8,
    y: u8,
    c: bool,
) -> bool {
    let xr = ((x as int + 8) % 256) as u8;
    exists|mid: Plane|
        #[trigger] sprite_applied(pre, &mid, sprite16_left(sprite), x, y) && sprite_applied(
            &mid,
            post,
            sprite16_right(sprite),
            xr,
            y,
        ) && c == (sprite_collides(pre, sprite16_left(sprite), x, y) || sprite_collides(
            &mid,
            sprite16_right(sprite),
            xr,
            y,
        ))
}

/// Whether drawing `sprite` at `(x mod width, y mod height)` clears at
/// least one already-set pixel: some sprite byte ANDs nonzero with the
/// window it lands on.
pub open spec fn sprite_collides(pre: &Plane, sprite: Seq<u8>, x: u8, y: u8) -> bool {
    let w = pre.width as int;
    let h = pre.height as int;
    let x0 = x as int % w;
    let y0 = y as int % h;
    exists|ii: int|
        0 <= ii < sprite.len() && (pre.window(x0, #[trigger] sprite_row(y0, ii, h)) & sprite[ii])
            != 0
}

/// Adding `ii < h` to a row index and wrapping is invertible: the wrapped
/// row is in range and subtracting `y0` modulo `h` recovers `ii`.
pub proof fn lemma_wrap_row(y0: int, ii: int, h: int)
    requires
        0 <= y0 < h,
        0 <= ii < h,
    ensures
        0 <= (y0 + ii) % h < h,
        ((y0 + ii) % h - y0) % h == ii,
{
    if y0 + ii < h {
        lemma_small_mod((y0 + ii) as nat, h as nat);
        lemma_small_mod(ii as nat, h as nat);
    } else {
        lemma_mod_multiples_vanish(1, y0 + ii - h, h);
        lemma_small_mod((y0 + ii - h) as nat, h as nat);
        lemma_mod_multiples_vanish(-1, ii, h);
        lemma_small_mod(ii as nat, h as nat);
    }
}

/// A row at distance at least `sprite.len()` (modulo `h`) from the start
/// row is hit by no sprite byte; in particular `(y0 + ii) % h` recovers a
/// distance of exactly `ii`.
pub proof fn lemma_wrap_row_unhit(y0: int, yy: int, h: int)
    requires
        0 <= y0 < h,
        0 <= yy < h,
    ensures
        (y0 + ((yy - y0) % h)) % h == yy,
        0 <= (yy - y0) % h < h,
{
    vstd::arithmetic::div_mod::lemma_mod_bound(yy - y0, h);
    let d = (yy - y0) % h;
    if yy >= y0 {
        lemma_small_mod((yy - y0) as nat, h as nat);
        lemma_small_mod(yy as nat, h as nat);
        if y0 + d < h {
            lemma_small_mod((y0 + d) as nat, h as nat);
        } else {
            lemma_mod_multiples_vanish(1, y0 + d - h, h);
            lemma_small_mod((y0 + d - h) as nat, h as nat);
        }
    } else {
        lemma_mod_multiples_vanish(1, yy - y0, h);
        lemma_small_mod((yy - y0 + h) as nat, h as nat);
        assert(d == yy - y0 + h);
        lemma_mod_multiples_vanish(1, yy, h);
        lemma_small_mod(yy as nat, h as nat);
    }
}

/// The neighboring byte of a window wraps within the row and never
/// coincides with the window's first byte.
pub proof fn lemma_neighbor_distinct(k1: int, rb: int)
    requires
        0 <= k1 < rb,
        2 <= rb,
    ensures
        0 <= (k1 + 1) % rb < rb,
        (k1 + 1) % rb != k1,
{
    if k1 + 1 < rb {
        lemma_small_mod((k1 + 1) as nat, rb as nat);
    } else {
        lemma_mod_multiples_vanish(1, 0, rb);
        lemma_small_mod(0, rb as nat);
    }
}

/// A full row of bytes fits inside the storage of a plane of `h` rows.
proof fn lemma_row_fits(y: int, h: int, rb: int)
    requires
        0 <= y < h,
        0 < rb,
    ensures
        y * rb + rb <= h * rb,
        (y + 1) * rb == y * rb + rb,
        0 <= y * rb,
{
    assert(y * rb + rb <= h * rb && (y + 1) * rb == y * rb + rb && 0 <= y * rb)
        by (nonlinear_arith)
        requires
            0 <= y < h,
            0 < rb,
    ;
}

/// Row arithmetic: products distribute over the row index.
proof fn lemma_row_linear(y: int, n: int, rb: int)
    ensures
        (y + 1) * rb == y * rb + rb,
        (y - n) * rb == y * rb - n * rb,
        (y + n) * rb == y * rb + n * rb,
{
    assert((y + 1) * rb == y * rb + rb && (y - n) * rb == y * rb - n * rb && (y + n) * rb == y * rb
        + n * rb) by (nonlinear_arith);
}

/// A column's byte index lies inside the row.
proof fn lemma_col_byte(x: int, rb: int)
    requires
        0 <= x < 8 * rb,
    ensures
        0 <= x / 8 < rb,
        0 <= x % 8 < 8,
{
    assert(0 <= x / 8 < rb && 0 <= x % 8 < 8) by (nonlinear_arith)
        requires
            0 <= x < 8 * rb,
    ;
}

/// Shifting every row down by `n` with a zeroed top region moves every
/// pixel down by `n`.
proof fn lemma_pixel_shift(pre: &Plane, post: &Plane, n: int)
    requires
        pre.wf(),
        post.wf(),
        post.width == pre.width,
        post.height == pre.height,
        0 <= n <= pre.height,
        forall|i: int|
            n * pre.row_bytes() <= i < post.cells@.len() ==> post.cells@[i] == pre.cells@[i - n
                * pre.row_bytes()],
        forall|i: int| 0 <= i < n * pre.row_bytes() ==> post.cells@[i] == 0u8,
    ensures
        forall|x: int, y: int|
            0 <= x < pre.width && 0 <= y < pre.height ==> post.pixel(x, y) == (y >= n && pre.pixel(
                x,
                y - n,
            )),
{
    let rb = pre.row_bytes();
    lemma_byte_nonzero();
    lemma_fundamental_div_mod(pre.width as int, 8);
    assert forall|x: int, y: int| 0 <= x < pre.width && 0 <= y < pre.height implies post.pixel(x, y)
        == (y >= n && pre.pixel(x, y - n)) by {
        lemma_col_byte(x, rb);
        let i = y * rb + x / 8;
        lemma_index_bounds(pre.height as int, rb, y, x / 8);
        if y < n {
            assert(i < n * rb) by (nonlinear_arith)
                requires
                    i == y * rb + x / 8,
                    0 <= y < n,
                    x / 8 < rb,
                    0 < rb,
            ;
            assert(post.cells@[i] == 0u8);
        } else {
            assert(y * rb + x / 8 - n * rb == (y - n) * rb + x / 8) by (nonlinear_arith);
            assert(i >= n * rb) by (nonlinear_arith)
                requires
                    i == y * rb + x / 8,
                    n <= y,
                    0 <= x / 8,
                    0 < rb,
            ;
            lemma_index_bounds(pre.height as int, rb, y - n, x / 8);
        }
    }
}

/// Shifting every row up by `n` with a zeroed bottom region moves every
/// pixel up by `n`.
proof fn lemma_pixel_shift_up(pre: &Plane, post: &Plane, n: int)
    requires
        pre.wf(),
        post.wf(),
        post.width == pre.width,
        post.height == pre.height,
        0 <= n <= pre.height,
        forall|i: int|
            0 <= i < (pre.height - n) * pre.row_bytes() ==> post.cells@[i] == pre.cells@[i + n
                * pre.row_bytes()],
        forall|i: int|
            (pre.height - n) * pre.row_bytes() <= i < post.cells@.len() ==> post.cells@[i] == 0u8,
    ensures
        forall|x: int, y: int|
            0 <= x < pre.width && 0 <= y < pre.height ==> post.pixel(x, y) == (y < pre.height - n
                && pre.pixel(x, y + n)),
{
    let rb = pre.row_bytes();
    let h = pre.height as int;
    lemma_byte_nonzero();
    lemma_fundamental_div_mod(pre.width as int, 8);
    assert forall|x: int, y: int| 0 <= x < pre.width && 0 <= y < pre.height implies post.pixel(x, y)
        == (y < h - n && pre.pixel(x, y + n)) by {
        lemma_col_byte(x, rb);
        let i = y * rb + x / 8;
        lemma_index_bounds(h, rb, y, x / 8);
        if y >= h - n {
            assert(i >= (h - n) * rb) by (nonlinear_arith)
                requires
                    i == y * rb + x / 8,
                    h - n <= y,
                    0 <= x / 8,
                    0 < rb,
            ;
            assert(post.cells@[i] == 0u8);
        } else {
            assert(y * rb + x / 8 + n * rb == (y + n) * rb + x / 8) by (nonlinear_arith);
            assert(i < (h - n) * rb) by (nonlinear_arith)
                requires
                    i == y * rb + x / 8,
                    y < h - n,
                    x / 8 < rb,
                    0 < rb,
            ;
            lemma_index_bounds(h, rb, y + n, x / 8);
        }
    }
}

/// A byte index inside a row stays inside the plane's storage.
proof fn lemma_index_bounds(h: int, rb: int, y: int, k: int)
    requires
        0 <= y < h,
        0 <= k < rb,
        0 < rb,
    ensures
        0 <= y * rb + k < h * rb,
        (y * rb + k) / rb == y,
        (y * rb + k) % rb == k,
{
    assert(y * rb + k < h * rb && 0 <= y * rb + k) by (nonlinear_arith)
        requires
            0 <= y < h,
            0 <= k < rb,
    ;
    lemma_fundamental_div_mod(y * rb + k, rb);
    lemma_mod_multiples_vanish(y, k, rb);
    assert(rb * y + k == y * rb + k) by (nonlinear_arith);
    lemma_small_mod(k as nat, rb as nat);
    assert((y * rb + k) / rb == y) by (nonlinear_arith)
        requires
            0 <= k < rb,
            rb * ((y * rb + k) / rb) + (y * rb + k) % rb == y * rb + k,
            (y * rb + k) % rb == k,
    ;
}

/// Rewriting every storage byte with `right_byte` moves every pixel four
/// columns to the right.
proof fn lemma_pixel_nibble_right(pre: &Plane, post: &Plane)
    requires
        pre.wf(),
        post.wf(),
        post.width == pre.width,
        post.height == pre.height,
        forall|i: int|
            0 <= i < post.cells@.len() ==> post.cells@[i] == right_byte(
                pre.cells@,
                pre.row_bytes(),
                i,
            ),
    ensures
        forall|x: int, y: int|
            0 <= x < pre.width && 0 <= y < pre.height ==> post.pixel(x, y) == (x >= 4 && pre.pixel(
                x - 4,
                y,
            )),
{
    let rb = pre.row_bytes();
    lemma_nibble_shift();
    lemma_fundamental_div_mod(pre.width as int, 8);
    assert forall|x: int, y: int| 0 <= x < pre.width && 0 <= y < pre.height implies post.pixel(x, y)
        == (x >= 4 && pre.pixel(x - 4, y)) by {
        lemma_col_byte(x, rb);
        let k = x / 8;
        let j = x % 8;
        let i = y * rb + k;
        lemma_index_bounds(pre.height as int, rb, y, k);
        if j >= 4 {
            assert(x - 4 == 8 * k + (j - 4)) by {
                lemma_fundamental_div_mod(x, 8);
            }
            lemma_div_mod_of_row(k, j - 4);
            lemma_index_bounds(pre.height as int, rb, y, (x - 4) / 8);
        } else if k > 0 {
            assert(x - 4 == 8 * (k - 1) + (j + 4)) by {
                lemma_fundamental_div_mod(x, 8);
            }
            lemma_div_mod_of_row(k - 1, j + 4);
            lemma_index_bounds(pre.height as int, rb, y, (x - 4) / 8);
        } else {
            assert(x < 4) by {
                lemma_fundamental_div_mod(x, 8);
            }
        }
    }
}

/// Rewriting every storage byte with `left_byte` moves every pixel four
/// columns to the left.
proof fn lemma_pixel_nibble_left(pre: &Plane, post: &Plane)
    requires
        pre.wf(),
        post.wf(),
        post.width == pre.width,
        post.height == pre.height,
        forall|i: int|
            0 <= i < post.cells@.len() ==> post.cells@[i] == left_byte(
                pre.cells@,
                pre.row_bytes(),
                i,
            ),
    ensures
        forall|x: int, y: int|
            0 <= x < pre.width && 0 <= y < pre.height ==> post.pixel(x, y) == (x < pre.width - 4
                && pre.pixel(x + 4, y)),
{
    let rb = pre.row_bytes();
    lemma_nibble_shift();
    lemma_fundamental_div_mod(pre.width as int, 8);
    assert forall|x: int, y: int| 0 <= x < pre.width && 0 <= y < pre.height implies post.pixel(x, y)
        == (x < pre.width - 4 && pre.pixel(x + 4, y)) by {
        lemma_col_byte(x, rb);
        let k = x / 8;
        let j = x % 8;
        let i = y * rb + k;
        lemma_index_bounds(pre.height as int, rb, y, k);
        if j < 4 {
            assert(x + 4 == 8 * k + (j + 4)) by {
                lemma_fundamental_div_mod(x, 8);
            }
            lemma_div_mod_of_row(k, j + 4);
            lemma_index_bounds(pre.height as int, rb, y, (x + 4) / 8);
        } else if k < rb - 1 {
            assert(x + 4 == 8 * (k + 1) + (j - 4)) by {
                lemma_fundamental_div_mod(x, 8);
            }
            lemma_div_mod_of_row(k + 1, j - 4);
            lemma_index_bounds(pre.height as int, rb, y, (x + 4) / 8);
        } else {
            assert(x >= pre.width - 4) by {
                lemma_fundamental_div_mod(x, 8);
                assert(8 * (rb - 1) == 8 * rb - 8) by (nonlinear_arith);
            }
        }
    }
}

/// A column expressed as `8 * k + j` has byte index `k` and bit index `j`.
proof fn lemma_div_mod_of_row(k: int, j: int)
    requires
        0 <= k,
        0 <= j < 8,
    ensures
        (8 * k + j) / 8 == k,
        (8 * k + j) % 8 == j,
{
    lemma_mod_multiples_vanish(k, j, 8);
    lemma_small_mod(j as nat, 8);
    lemma_fundamental_div_mod(8 * k + j, 8);
    assert((8 * k + j) / 8 == k) by (nonlinear_arith)
        requires
            8 * ((8 * k + j) / 8) + (8 * k + j) % 8 == 8 * k + j,
            (8 * k + j) % 8 == j,
    ;
}


/// Standard display width in pixels.
pub const WIDTH: usize = 64;

/// Standard display height in pixels.
pub const HEIGHT: usize = 32;

/// Whether plane `p` responds to drawing operations under `mask`.
pub open spec fn plane_active(mask: u8, p: int) -> bool {
    (mask >> (p as u8)) & 1 == 1
}

/// The 2-bit palette index of a pixel built from the two plane bits.
pub open spec fn pix_index(b0: bool, b1: bool) -> int {
    (if b0 {
        1int
    } else {
        0int
    }) + (if b1 {
        2int
    } else {
        0int
    })
}

/// A single extracted bit is zero or one.
pub proof fn lemma_bit_extract()
    by (bit_vector)
    ensures
        forall|c: u8, s: u8| ((c >> s) & 1) == 0 || ((c >> s) & 1) == 1,
        forall|m: u8| #[trigger] (m >> 0u8) == m,
        forall|m: u8| #[trigger] (m & 3) == ((m >> 0u8) & 1) + 2 * ((m >> 1u8) & 1),
{
}

/// The compositor: one or two planes of identical dimensions, an
/// active-plane mask, a 4-color palette, and a change counter that only
/// drawing and scrolling operations advance.
#[derive(Debug)]
pub struct Display {
    pub planes: Vec<Plane>,
    pub width: usize,
    pub height: usize,
    pub updates: u64,
    pub updated: bool,
    pub extended: bool,
    pub colors: [u32; 4],
    pub active_planes: u8,
}

impl Display {
    /// Both planes share the display's dimensions at all times.
    pub open spec fn wf(&self) -> bool {
        &&& self.planes@.len() == 2
        &&& self.planes@[0].wf()
        &&& self.planes@[1].wf()
        &&& self.planes@[0].width == self.width
        &&& self.planes@[0].height == self.height
        &&& self.planes@[1].width == self.width
        &&& self.planes@[1].height == self.height
        &&& self.width % 8 == 0
        &&& 16 <= self.width <= 128
        &&& 1 <= self.height <= 64
    }

    /// The parts drawing never touches: geometry, palette, mask, mode.
    pub open spec fn same_config(&self, other: &Display) -> bool {
        &&& self.width == other.width
        &&& self.height == other.height
        &&& self.extended == other.extended
        &&& self.colors == other.colors
        &&& self.active_planes == other.active_planes
    }

    /// The change counter after one more content change: the flag is set
    /// and the counter advances, saturating instead of wrapping.
    pub open spec fn spec_flagged(&self, other: &Display) -> bool {
        &&& self.updated == true
        &&& self.updates == other.updates.saturating_add(1)
    }

    /// A cleared two-plane display of the given dimensions, palette preset,
    /// plane 0 active.
    pub fn new(height: usize, width: usize) -> (d: Display)
        requires
            width % 8 == 0,
            16 <= width <= 128,
            1 <= height <= 64,
        ensures
            d.wf(),
            d.width == width,
            d.height == height,
            d.updates == 0,
            d.updated == true,
            d.extended == false,
            d.active_planes == 1,
            forall|p: int, i: int|
                0 <= p < 2 && 0 <= i < d.planes@[p].cells@.len() ==> d.planes@[p].cells@[i] == 0u8,
    {
        let mut planes: Vec<Plane> = Vec::new();
        planes.push(Plane::new(height, width));
        planes.push(Plane::new(height, width));
        Display {
            planes,
            width,
            height,
            updates: 0,
            updated: true,
            extended: false,
            colors: [0x00AA4400, 0x00FFAA00, 0x00AAAAAA, 0x00000000],
            active_planes: 0x1,
        }
    }

    /// Switches between the standard 64 x 32 and the extended 128 x 64
    /// mode: reallocates and zeroes both planes, preserving the palette,
    /// the active-plane mask and the change counter.
    pub fn set_extended(&mut self, ext: bool)
        requires
            old(self).wf(),
        ensures
            final(self).wf(),
            display_mode_set(old(self), final(self), ext),
            final(self).extended == ext,
            final(self).width == (if ext {
                2 * WIDTH as int
            } else {
                WIDTH as int
            }),
            final(self).height == (if ext {
                2 * HEIGHT as int
            } else {
                HEIGHT as int
            }),
            final(self).colors == old(self).colors,
            final(self).active_planes == old(self).active_planes,
            final(self).updates == old(self).updates,
            final(self).updated == old(self).updated,
            forall|p: int, i: int|
                0 <= p < 2 && 0 <= i < final(self).planes@[p].cells@.len() ==> final(self).planes@[p].cells@[i] == 0u8,
    {
        if ext {
            self.height = HEIGHT * 2;
            self.width = WIDTH * 2;
        } else {
            self.height = HEIGHT;
            self.width = WIDTH;
        }
        self.extended = ext;
        let mut planes: Vec<Plane> = Vec::new();
        planes.push(Plane::new(self.height, self.width));
        planes.push(Plane::new(self.height, self.width));
        self.planes = planes;
    }

    /// Records that display content changed since the last observation.
    pub fn flag_updated(&mut self)
        requires
            old(self).wf(),
        ensures
            final(self).wf(),
            final(self).same_config(old(self)),
            final(self).planes == old(self).planes,
            final(self).spec_flagged(old(self)),
    {
        self.updated = true;
        self.updates = self.updates.saturating_add(1);
    }

    /// Clears every pixel of every active plane.
    pub fn clear(&mut self)
        requires
            old(self).wf(),
        ensures
            final(self).wf(),
            final(self).same_config(old(self)),
            final(self).spec_flagged(old(self)),
            display_cleared(old(self), final(self)),
    {
        if self.active_planes & 1 == 1 {
            self.planes[0].clear();
        }
        if (self.active_planes >> 1u8) & 1 == 1 {
            self.planes[1].clear();
        }
        proof {
            lemma_bit_extract();
        }
        self.flag_updated();
    }

    /// Scrolls every active plane down by `n` rows.
    pub fn scroll_down(&mut self, n: u8)
        requires
            old(self).wf(),
            n <= old(self).height,
        ensures
            final(self).wf(),
            final(self).same_config(old(self)),
            final(self).spec_flagged(old(self)),
            display_scrolled_down(old(self), final(self), n),
    {
        if self.active_planes & 1 == 1 {
            self.planes[0].scroll_down(n);
        }
        if (self.active_planes >> 1u8) & 1 == 1 {
            self.planes[1].scroll_down(n);
        }
        proof {
            lemma_bit_extract();
        }
        self.flag_updated();
    }

    /// Scrolls every active plane up by `n` rows.
    pub fn scroll_up(&mut self, n: u8)
        requires
            old(self).wf(),
            n <= old(self).height,
        ensures
            final(self).wf(),
            final(self).same_config(old(self)),
            final(self).spec_flagged(old(self)),
            display_scrolled_up(old(self), final(self), n),
    {
        if self.active_planes & 1 == 1 {
            self.planes[0].scroll_up(n);
        }
        if (self.active_planes >> 1u8) & 1 == 1 {
            self.planes[1].scroll_up(n);
        }
        proof {
            lemma_bit_extract();
        }
        self.flag_updated();
    }

    /// Scrolls every active plane right by 4 pixels.
    pub fn scroll_right(&mut self)
        requires
            old(self).wf(),
        ensures
            final(self).wf(),
            final(self).same_config(old(self)),
            final(self).spec_flagged(old(self)),
            display_scrolled_right(old(self), final(self)),
    {
        if self.active_planes & 1 == 1 {
            self.planes[0].scroll_right();
        }
        if (self.active_planes >> 1u8) & 1 == 1 {
            self.planes[1].scroll_right();
        }
        proof {
            lemma_bit_extract();
        }
        self.flag_updated();
    }

    /// Scrolls every active plane left by 4 pixels.
    pub fn scroll_left(&mut self)
        requires
            old(self).wf(),
        ensures
            final(self).wf(),
            final(self).same_config(old(self)),
            final(self).spec_flagged(old(self)),
            display_scrolled_left(old(self), final(self)),
    {
        if self.active_planes & 1 == 1 {
            self.planes[0].scroll_left();
        }
        if (self.active_planes >> 1u8) & 1 == 1 {
            self.planes[1].scroll_left();
        }
        proof {
            lemma_bit_extract();
        }
        self.flag_updated();
    }

    /// XOR-blits a sprite onto the active planes.  With both planes active
    /// the byte range splits in half, first half to plane 0 and second to
    /// plane 1; otherwise each active plane receives the whole sprite.
    /// Returns whether any plane cleared a set pixel.
    pub fn write_sprite(&mut self, sprite: &[u8], x: u8, y: u8) -> (collision: bool)
        requires
            old(self).wf(),
            old(self).active_planes & 3 == 3 ==> sprite@.len() <= 2 * old(self).height,
            old(self).active_planes & 3 != 3 ==> sprite@.len() <= old(self).height,
        ensures
            final(self).wf(),
            final(self).same_config(old(self)),
            final(self).spec_flagged(old(self)),
            display_sprite_applied(old(self), final(self), sprite@, x, y, collision),
            forall|p: int|
                0 <= p < 2 ==> final(self).planes@[p].width == old(self).width && final(self).planes@[p].height == old(self).height,
    {
        let mut collision: bool = false;
        if self.active_planes & 3 == 3 {
            let length: usize = sprite.len();
            let half: &[u8] = vstd::slice::slice_subrange(sprite, 0, length / 2);
            let rest: &[u8] = vstd::slice::slice_subrange(sprite, length / 2, length);
            collision = self.planes[0].write_sprite(half, x, y) || collision;
            collision = self.planes[1].write_sprite(rest, x, y) || collision;
        } else {
            if self.active_planes & 1 == 1 {
                collision = self.planes[0].write_sprite(sprite, x, y) || collision;
            }
            if (self.active_planes >> 1u8) & 1 == 1 {
                collision = self.planes[1].write_sprite(sprite, x, y) || collision;
            }
        }
        proof {
            lemma_bit_extract();
        }
        self.flag_updated();
        collision
    }

    /// XOR-blits a 16 x 16 sprite onto the active planes.  With both
    /// planes active the 64 bytes split in half between the planes;
    /// otherwise each active plane receives the 32-byte sprite.
    pub fn write_sprite16(&mut self, sprite: &[u8], x: u8, y: u8) -> (collision: bool)
        requires
            old(self).wf(),
            old(self).height >= 16,
            old(self).active_planes & 3 == 3 ==> sprite@.len() == 64,
            old(self).active_planes & 3 != 3 ==> sprite@.len() == 32,
        ensures
            final(self).wf(),
            final(self).same_config(old(self)),
            final(self).spec_flagged(old(self)),
            display_sprite16_applied(old(self), final(self), sprite@, x, y, collision),
            forall|p: int|
                0 <= p < 2 ==> final(self).planes@[p].width == old(self).width && final(self).planes@[p].height == old(self).height,
    {
        let mut collision: bool = false;
        if self.active_planes & 3 == 3 {
            let half: &[u8] = vstd::slice::slice_subrange(sprite, 0, 32);
            let rest: &[u8] = vstd::slice::slice_subrange(sprite, 32, 64);
            let ca: bool = self.planes[0].write_sprite16(half, x, y);
            let cb: bool = self.planes[1].write_sprite16(rest, x, y);
            collision = ca || cb;
        } else {
            if self.active_planes & 1 == 1 {
                collision = self.planes[0].write_sprite16(sprite, x, y) || collision;
            }
            if (self.active_planes >> 1u8) & 1 == 1 {
                collision = self.planes[1].write_sprite16(sprite, x, y) || collision;
            }
        }
        proof {
            lemma_bit_extract();
        }
        self.flag_updated();
        collision
    }

    /// The palette color of the frame entry at flat index `idx`, row-major.
    pub open spec fn frame_color(&self, idx: int) -> u32 {
        self.colors@[pix_index(
            self.planes@[0].pixel(idx % (self.width as int), idx / (self.width as int)),
            self.planes@[1].pixel(idx % (self.width as int), idx / (self.width as int)),
        )]
    }

    /// Renders the composed frame: one palette color per pixel, row-major
    /// from the top-left, the 2-bit palette index built from the two plane
    /// bits at each coordinate.
    pub fn to_buf(&self) -> (buf: Vec<u32>)
        requires
            self.wf(),
        ensures
            buf@.len() == self.height * self.width,
            forall|x: int, y: int|
                0 <= x < self.width && 0 <= y < self.height ==> buf@[y * self.width + x]
                    == self.colors@[pix_index(
                    self.planes@[0].pixel(x, y),
                    self.planes@[1].pixel(x, y),
                )],
    {
        let w: usize = self.width;
        let h: usize = self.height;
        let rb: usize = w / 8;
        proof {
            lemma_fundamental_div_mod(w as int, 8);
            lemma_mul_upper_bound(h as int, 64, w as int, 128);
        }
        let mut buf: Vec<u32> = Vec::new();
        let mut y: usize = 0;
        while y < h
            invariant
                self.wf(),
                w == self.width,
                h == self.height,
                rb as int == self.planes@[0].row_bytes(),
                rb as int == self.planes@[1].row_bytes(),
                w == 8 * rb,
                y <= h,
                h * w <= 8192,
                buf@.len() == y * w,
                forall|idx: int|
                    0 <= idx < buf@.len() ==> buf@[idx] == self.frame_color(idx),
            decreases h - y,
        {
            proof {
                lemma_row_fits(y as int, h as int, rb as int);
                vstd::arithmetic::mul::lemma_mul_inequality(y as int + 1, h as int, w as int);
                lemma_row_linear(y as int, 0, w as int);
                lemma_row_linear(y as int, 0, rb as int);
            }
            let mut k: usize = 0;
            while k < rb
                invariant
                    self.wf(),
                    w == self.width,
                    h == self.height,
                    rb as int == self.planes@[0].row_bytes(),
                    rb as int == self.planes@[1].row_bytes(),
                    w == 8 * rb,
                    y < h,
                    k <= rb,
                    h * w <= 8192,
                    (y as int) * (rb as int) + rb <= self.planes@[0].cells@.len(),
                    (y as int) * (rb as int) + rb <= self.planes@[1].cells@.len(),
                    (y as int) * (w as int) + w <= h * w,
                    buf@.len() == y * w + 8 * k,
                    forall|idx: int|
                        0 <= idx < buf@.len() ==> buf@[idx] == self.frame_color(idx),
                decreases rb - k,
            {
                proof {
                    lemma_mul_upper_bound(y as int, 63, rb as int, 16);
                }
                let c1: u8 = self.planes[0].cells[y * rb + k];
                let c2: u8 = self.planes[1].cells[y * rb + k];
                let mut bit: usize = 0;
                while bit < 8
                    invariant
                        self.wf(),
                        w == self.width,
                        h == self.height,
                        rb as int == self.planes@[0].row_bytes(),
                        rb as int == self.planes@[1].row_bytes(),
                        w == 8 * rb,
                        y < h,
                        k < rb,
                        bit <= 8,
                        h * w <= 8192,
                        (y as int) * (rb as int) + rb <= self.planes@[0].cells@.len(),
                        (y as int) * (rb as int) + rb <= self.planes@[1].cells@.len(),
                        (y as int) * (w as int) + w <= h * w,
                        c1 == self.planes@[0].cells@[(y as int) * (rb as int) + k],
                        c2 == self.planes@[1].cells@[(y as int) * (rb as int) + k],
                        buf@.len() == y * w + 8 * k + bit,
                        forall|idx: int|
                            0 <= idx < buf@.len() ==> buf@[idx] == self.frame_color(idx),
                    decreases 8 - bit,
                {
                    let sh: u8 = (7 - bit) as u8;
                    let b0: u8 = (c1 >> sh) & 1;
                    let b1: u8 = (c2 >> sh) & 1;
                    proof {
                        lemma_bit_extract();
                        lemma_div_mod_of_row(k as int, bit as int);
                        assert(8 * (k as int) + bit < w) by (nonlinear_arith)
                            requires
                                k < rb,
                                bit < 8,
                                w == 8 * rb,
                        ;
                    }
                    let idx: usize = (b0 + 2 * b1) as usize;
                    buf.push(self.colors[idx]);
                    proof {
                        let xnew = 8 * (k as int) + bit;
                        let inew = (y as int) * (w as int) + xnew;
                        lemma_index_bounds(h as int, w as int, y as int, xnew);
                        assert((y as int) * (w as int) + 8 * (k as int) + bit == inew);
                        assert(xnew / 8 == k && xnew % 8 == bit);
                        assert(b0 == 1 <==> self.planes@[0].pixel(xnew, y as int));
                        assert(b1 == 1 <==> self.planes@[1].pixel(xnew, y as int));
                        assert(idx as int == pix_index(
                            self.planes@[0].pixel(xnew, y as int),
                            self.planes@[1].pixel(xnew, y as int),
                        ));
                        assert(buf@[inew] == self.frame_color(inew));
                    }
                    bit += 1;
                }
                proof {
                    lemma_row_linear(y as int, 0, rb as int);
                }
                k += 1;
            }
            proof {
                lemma_row_linear(y as int, 0, w as int);
            }
            y += 1;
        }
        proof {
            assert forall|x: int, yy: int| 0 <= x < w && 0 <= yy < h implies buf@[yy * w + x]
                == self.colors@[pix_index(
                self.planes@[0].pixel(x, yy),
                self.planes@[1].pixel(x, yy),
            )] by {
                lemma_index_bounds(h as int, w as int, yy, x);
                vstd::arithmetic::mul::lemma_mul_inequality(yy + 1, h as int, w as int);
                lemma_row_linear(yy, 0, w as int);
                let idx = yy * (w as int) + x;
                assert(buf@.len() == (h as int) * (w as int));
                assert(0 <= idx < buf@.len());
                assert(buf@[idx] == self.frame_color(idx));
                assert(idx % (self.width as int) == x);
                assert(idx / (self.width as int) == yy);
            }
        }
        buf
    }

    /// The built-in 5-byte glyphs for hexadecimal digits 0 to F.
    pub fn std_sprites(&self) -> (r: [u8; 80])
        ensures
            r@ == std_font(),
    {
        let r: [u8; 80] = [
            0xF0, 0x90, 0x90, 0x90, 0xF0, 0x20, 0x60, 0x20, 0x20, 0x70, 0xF0, 0x10, 0xF0, 0x80,
            0xF0, 0xF0, 0x10, 0xF0, 0x10, 0xF0, 0x90, 0x90, 0xF0, 0x10, 0x10, 0xF0, 0x80, 0xF0,
            0x10, 0xF0, 0xF0, 0x80, 0xF0, 0x90, 0xF0, 0xF0, 0x10, 0x20, 0x40, 0x40, 0xF0, 0x90,
            0xF0, 0x90, 0xF0, 0xF0, 0x90, 0xF0, 0x10, 0xF0, 0xF0, 0x90, 0xF0, 0x90, 0x90, 0xE0,
            0x90, 0xE0, 0x90, 0xE0, 0xF0, 0x80, 0x80, 0x80, 0xF0, 0xE0, 0x90, 0x90, 0x90, 0xE0,
            0xF0, 0x80, 0xF0, 0x80, 0xF0, 0xF0, 0x80, 0xF0, 0x80, 0x80,
        ];
        proof {
            assert(r@ =~= std_font());
        }
        r
    }

    /// The built-in 10-byte high-resolution glyphs for digits 0 to 9.
    pub fn hires_sprites(&self) -> (r: [u8; 100])
        ensures
            r@ == hires_font(),
    {
        let r: [u8; 100] = [
            0x3C, 0x7E, 0xE7, 0xC3, 0xC3, 0xC3, 0xC3, 0xE7, 0x7E, 0x3C, 0x18, 0x38, 0x58, 0x18,
            0x18, 0x18, 0x18, 0x18, 0x18, 0x3C, 0x3E, 0x7F, 0xC3, 0x06, 0x0C, 0x18, 0x30, 0x60,
            0xFF, 0xFF, 0x3C, 0x7E, 0xC3, 0x03, 0x0E, 0x0E, 0x03, 0xC3, 0x7E, 0x3C, 0x06, 0x0E,
            0x1E, 0x36, 0x66, 0xC6, 0xFF, 0xFF, 0x06, 0x06, 0xFF, 0xFF, 0xC0, 0xC0, 0xFC, 0xFE,
            0x03, 0xC3, 0x7E, 0x3C, 0x3E, 0x7C, 0xC0, 0xC0, 0xFC, 0xFE, 0xC3, 0xC3, 0x7E, 0x3C,
            0xFF, 0xFF, 0x03, 0x06, 0x0C, 0x18, 0x30, 0x60, 0x60, 0x60, 0x3C, 0x7E, 0xC3, 0xC3,
            0x7E, 0x7E, 0xC3, 0xC3, 0x7E, 0x3C, 0x3C, 0x7E, 0xC3, 0xC3, 0x7F, 0x3F, 0x03, 0x03,
            0x3E, 0x7C,
        ];
        proof {
            assert(r@ =~= hires_font());
        }
        r
    }
}

/// The 80 bytes of the built-in low-resolution font.
pub open spec fn std_font() -> Seq<u8> {
    seq![
        0xF0u8, 0x90u8, 0x90u8, 0x90u8, 0xF0u8, 0x20u8, 0x60u8, 0x20u8, 0x20u8, 0x70u8, 0xF0u8,
        0x10u8, 0xF0u8, 0x80u8, 0xF0u8, 0xF0u8, 0x10u8, 0xF0u8, 0x10u8, 0xF0u8, 0x90u8, 0x90u8,
        0xF0u8, 0x10u8, 0x10u8, 0xF0u8, 0x80u8, 0xF0u8, 0x10u8, 0xF0u8, 0xF0u8, 0x80u8, 0xF0u8,
        0x90u8, 0xF0u8, 0xF0u8, 0x10u8, 0x20u8, 0x40u8, 0x40u8, 0xF0u8, 0x90u8, 0xF0u8, 0x90u8,
        0xF0u8, 0xF0u8, 0x90u8, 0xF0u8, 0x10u8, 0xF0u8, 0xF0u8, 0x90u8, 0xF0u8, 0x90u8, 0x90u8,
        0xE0u8, 0x90u8, 0xE0u8, 0x90u8, 0xE0u8, 0xF0u8, 0x80u8, 0x80u8, 0x80u8, 0xF0u8, 0xE0u8,
        0x90u8, 0x90u8, 0x90u8, 0xE0u8, 0xF0u8, 0x80u8, 0xF0u8, 0x80u8, 0xF0u8, 0xF0u8, 0x80u8,
        0xF0u8, 0x80u8, 0x80u8,
    ]
}

/// The 100 bytes of the built-in high-resolution font.
pub open spec fn hires_font() -> Seq<u8> {
    seq![
        0x3Cu8, 0x7Eu8, 0xE7u8, 0xC3u8, 0xC3u8, 0xC3u8, 0xC3u8, 0xE7u8, 0x7Eu8, 0x3Cu8, 0x18u8,
        0x38u8, 0x58u8, 0x18u8, 0x18u8, 0x18u8, 0x18u8, 0x18u8, 0x18u8, 0x3Cu8, 0x3Eu8, 0x7Fu8,
        0xC3u8, 0x06u8, 0x0Cu8, 0x18u8, 0x30u8, 0x60u8, 0xFFu8, 0xFFu8, 0x3Cu8, 0x7Eu8, 0xC3u8,
        0x03u8, 0x0Eu8, 0x0Eu8, 0x03u8, 0xC3u8, 0x7Eu8, 0x3Cu8, 0x06u8, 0x0Eu8, 0x1Eu8, 0x36u8,
        0x66u8, 0xC6u8, 0xFFu8, 0xFFu8, 0x06u8, 0x06u8, 0xFFu8, 0xFFu8, 0xC0u8, 0xC0u8, 0xFCu8,
        0xFEu8, 0x03u8, 0xC3u8, 0x7Eu8, 0x3Cu8, 0x3Eu8, 0x7Cu8, 0xC0u8, 0xC0u8, 0xFCu8, 0xFEu8,
        0xC3u8, 0xC3u8, 0x7Eu8, 0x3Cu8, 0xFFu8, 0xFFu8, 0x03u8, 0x06u8, 0x0Cu8, 0x18u8, 0x30u8,
        0x60u8, 0x60u8, 0x60u8, 0x3Cu8, 0x7Eu8, 0xC3u8, 0xC3u8, 0x7Eu8, 0x7Eu8, 0xC3u8, 0xC3u8,
        0x7Eu8, 0x3Cu8, 0x3Cu8, 0x7Eu8, 0xC3u8, 0xC3u8, 0x7Fu8, 0x3Fu8, 0x03u8, 0x03u8, 0x3Eu8,
        0x7Cu8,
    ]
}


/// Drawing the same sprite at the same coordinates twice in a row restores
/// the pre-draw bitmap, and the second draw reports a collision exactly
/// where the first draw set a previously clear bit.
pub proof fn lemma_sprite_double_draw(p0: &Plane, p1: &Plane, p2: &Plane, sprite: Seq<u8>, x: u8, y: u8)
    requires
        p0.wf(),
        p1.wf(),
        p2.wf(),
        p1.width == p0.width,
        p1.height == p0.height,
        p2.width == p0.width,
        p2.height == p0.height,
        sprite.len() <= p0.height,
        sprite_applied(p0, p1, sprite, x, y),
        sprite_applied(p1, p2, sprite, x, y),
    ensures
        p2.cells@ =~= p0.cells@,
        sprite_collides(p1, sprite, x, y) == (exists|ii: int|
            0 <= ii < sprite.len() && (sprite[ii] & !p0.window(
                x as int % p0.width as int,
                #[trigger] sprite_row(y as int % p0.height as int, ii, p0.height as int),
            )) != 0),
{
    let w = p0.width as int;
    let h = p0.height as int;
    let rb = p0.row_bytes();
    let x0 = x as int % w;
    let y0 = y as int % h;
    let k1 = x0 / 8;
    let k2 = (k1 + 1) % rb;
    let ob = (x0 % 8) as u8;
    lemma_fundamental_div_mod(w, 8);
    vstd::arithmetic::div_mod::lemma_mod_bound(x as int, w);
    vstd::arithmetic::div_mod::lemma_mod_bound(y as int, h);
    lemma_col_byte(x0, rb);
    lemma_neighbor_distinct(k1, rb);
    lemma_win_roundtrip();
    lemma_win_restore();
    lemma_xor_and();

    assert forall|ii: int| 0 <= ii < sprite.len() implies {
        let ry = #[trigger] sprite_row(y0, ii, h);
        &&& p1.window(x0, ry) == p0.window(x0, ry) ^ sprite[ii]
        &&& p2.cells@[ry * rb + k1] == p0.cells@[ry * rb + k1]
        &&& p2.cells@[ry * rb + k2] == p0.cells@[ry * rb + k2]
    } by {
        lemma_wrap_row(y0, ii, h);
        let ry = sprite_row(y0, ii, h);
        lemma_index_bounds(h, rb, ry, k1);
        lemma_index_bounds(h, rb, ry, k2);
        let b1 = p0.cells@[ry * rb + k1];
        let b2 = p0.cells@[ry * rb + k2];
        let wv = p0.window(x0, ry);
        assert(p1.cells@[ry * rb + k1] == set_hi(b1, wv ^ sprite[ii], ob));
        assert(p1.cells@[ry * rb + k2] == set_lo(b2, wv ^ sprite[ii], ob));
        assert(p1.window(x0, ry) == wv ^ sprite[ii]);
        assert((wv ^ sprite[ii]) ^ sprite[ii] == wv);
        assert(p2.cells@[ry * rb + k1] == set_hi(
            set_hi(b1, wv ^ sprite[ii], ob),
            win_byte(b1, b2, ob),
            ob,
        ));
        assert(p2.cells@[ry * rb + k2] == set_lo(
            set_lo(b2, wv ^ sprite[ii], ob),
            win_byte(b1, b2, ob),
            ob,
        ));
    }

    assert forall|i: int| 0 <= i < p0.cells@.len() implies p2.cells@[i] == p0.cells@[i] by {
        let yy = i / rb;
        let k = i % rb;
        vstd::arithmetic::div_mod::lemma_mod_bound(i, rb);
        lemma_fundamental_div_mod(i, rb);
        assert(rb * (i / rb) + i % rb == i);
        assert(i == yy * rb + k) by (nonlinear_arith)
            requires
                rb * yy + k == i,
        ;
        assert(0 <= yy < h) by (nonlinear_arith)
            requires
                i == yy * rb + k,
                0 <= i < h * rb,
                0 <= k < rb,
                0 < rb,
        ;
        if (yy - y0) % h >= sprite.len() || (k != k1 && k != k2) {
        } else {
            lemma_wrap_row_unhit(y0, yy, h);
            let ii = (yy - y0) % h;
            assert(sprite_row(y0, ii, h) == yy);
        }
    }

    assert forall|ii: int| 0 <= ii < sprite.len() implies ((p1.window(
        x0,
        #[trigger] sprite_row(y0, ii, h),
    ) & sprite[ii]) != 0) == ((sprite[ii] & !p0.window(x0, sprite_row(y0, ii, h))) != 0) by {
        lemma_wrap_row(y0, ii, h);
        let ry = sprite_row(y0, ii, h);
        assert(p1.window(x0, ry) == p0.window(x0, ry) ^ sprite[ii]);
        assert(((p0.window(x0, ry) ^ sprite[ii]) & sprite[ii]) == (sprite[ii] & !p0.window(
            x0,
            ry,
        )));
    }
}

/// Scrolling down by `n` and then up by `n` reproduces the original
/// bitmap except for the bottom `n` rows, which the two scrolls crossed
/// and zero-filled.
pub proof fn lemma_scroll_down_then_up(p0: &Plane, p1: &Plane, p2: &Plane, n: u8)
    requires
        p0.wf(),
        p1.width == p0.width && p1.height == p0.height,
        p2.width == p0.width && p2.height == p0.height,
        n <= p0.height,
        forall|x: int, y: int|
            0 <= x < p0.width && 0 <= y < p0.height ==> #[trigger] p1.pixel(x, y) == (y >= n
                && p0.pixel(x, y - n)),
        forall|x: int, y: int|
            0 <= x < p0.width && 0 <= y < p0.height ==> #[trigger] p2.pixel(x, y) == (y < p0.height
                - n && p1.pixel(x, y + n)),
    ensures
        forall|x: int, y: int|
            0 <= x < p0.width && 0 <= y < p0.height ==> #[trigger] p2.pixel(x, y) == (y < p0.height
                - n && p0.pixel(x, y)),
{
}

/// Scrolling left and then right reproduces the original bitmap except
/// for the leftmost 4 columns, which the two scrolls crossed and
/// zero-filled.
pub proof fn lemma_scroll_left_then_right(p0: &Plane, p1: &Plane, p2: &Plane)
    requires
        p0.wf(),
        p1.width == p0.width && p1.height == p0.height,
        p2.width == p0.width && p2.height == p0.height,
        forall|x: int, y: int|
            0 <= x < p0.width && 0 <= y < p0.height ==> #[trigger] p1.pixel(x, y) == (x < p0.width
                - 4 && p0.pixel(x + 4, y)),
        forall|x: int, y: int|
            0 <= x < p0.width && 0 <= y < p0.height ==> #[trigger] p2.pixel(x, y) == (x >= 4
                && p1.pixel(x - 4, y)),
    ensures
        forall|x: int, y: int|
            0 <= x < p0.width && 0 <= y < p0.height ==> #[trigger] p2.pixel(x, y) == (x >= 4
                && p0.pixel(x, y)),
{
}

/// Scrolling right and then left reproduces the original bitmap except
/// for the rightmost 4 columns.
pub proof fn lemma_scroll_right_then_left(p0: &Plane, p1: &Plane, p2: &Plane)
    requires
        p0.wf(),
        p1.width == p0.width && p1.height == p0.height,
        p2.width == p0.width && p2.height == p0.height,
        forall|x: int, y: int|
            0 <= x < p0.width && 0 <= y < p0.height ==> #[trigger] p1.pixel(x, y) == (x >= 4
                && p0.pixel(x - 4, y)),
        forall|x: int, y: int|
            0 <= x < p0.width && 0 <= y < p0.height ==> #[trigger] p2.pixel(x, y) == (x < p0.width
                - 4 && p1.pixel(x + 4, y)),
    ensures
        forall|x: int, y: int|
            0 <= x < p0.width && 0 <= y < p0.height ==> #[trigger] p2.pixel(x, y) == (x < p0.width
                - 4 && p0.pixel(x, y)),
{
}


/// The mode switch's effect: the standard or the doubled geometry, both
/// planes zeroed, palette, mask and change counter untouched.
pub open spec fn display_mode_set(pre: &Display, post: &Display, ext: bool) -> bool {
    &&& post.extended == ext
    &&& post.width == (if ext {
        2 * WIDTH as int
    } else {
        WIDTH as int
    })
    &&& post.height == (if ext {
        2 * HEIGHT as int
    } else {
        HEIGHT as int
    })
    &&& post.colors == pre.colors
    &&& post.active_planes == pre.active_planes
    &&& post.updates == pre.updates
    &&& post.updated == pre.updated
    &&& forall|p: int, i: int|
        0 <= p < 2 && 0 <= i < post.planes@[p].cells@.len() ==> post.planes@[p].cells@[i] == 0u8
}

/// The clear operation's effect on the planes: active planes all zero,
/// inactive planes untouched, geometry kept.
pub open spec fn display_cleared(pre: &Display, post: &Display) -> bool {
    &&& forall|p: int|
        0 <= p < 2 && !plane_active(pre.active_planes, p) ==> post.planes@[p] == pre.planes@[p]
    &&& forall|p: int, i: int|
        0 <= p < 2 && plane_active(pre.active_planes, p) && 0 <= i < post.planes@[p].cells@.len()
            ==> post.planes@[p].cells@[i] == 0u8
    &&& forall|p: int|
        0 <= p < 2 ==> post.planes@[p].width == pre.width && post.planes@[p].height == pre.height
}

/// The scroll-down operation's effect on the planes.
pub open spec fn display_scrolled_down(pre: &Display, post: &Display, n: u8) -> bool {
    &&& forall|p: int|
        0 <= p < 2 && !plane_active(pre.active_planes, p) ==> post.planes@[p] == pre.planes@[p]
    &&& forall|p: int, x: int, y: int|
        0 <= p < 2 && plane_active(pre.active_planes, p) && 0 <= x < pre.width && 0 <= y
            < pre.height ==> post.planes@[p].pixel(x, y) == (y >= n && pre.planes@[p].pixel(
            x,
            y - n,
        ))
    &&& forall|p: int|
        0 <= p < 2 ==> post.planes@[p].width == pre.width && post.planes@[p].height == pre.height
}

/// The scroll-up operation's effect on the planes.
pub open spec fn display_scrolled_up(pre: &Display, post: &Display, n: u8) -> bool {
    &&& forall|p: int|
        0 <= p < 2 && !plane_active(pre.active_planes, p) ==> post.planes@[p] == pre.planes@[p]
    &&& forall|p: int, x: int, y: int|
        0 <= p < 2 && plane_active(pre.active_planes, p) && 0 <= x < pre.width && 0 <= y
            < pre.height ==> post.planes@[p].pixel(x, y) == (y < pre.height - n
            && pre.planes@[p].pixel(x, y + n))
    &&& forall|p: int|
        0 <= p < 2 ==> post.planes@[p].width == pre.width && post.planes@[p].height == pre.height
}

/// The scroll-right operation's effect on the planes.
pub open spec fn display_scrolled_right(pre: &Display, post: &Display) -> bool {
    &&& forall|p: int|
        0 <= p < 2 && !plane_active(pre.active_planes, p) ==> post.planes@[p] == pre.planes@[p]
    &&& forall|p: int, x: int, y: int|
        0 <= p < 2 && plane_active(pre.active_planes, p) && 0 <= x < pre.width && 0 <= y
            < pre.height ==> post.planes@[p].pixel(x, y) == (x >= 4 && pre.planes@[p].pixel(
            x - 4,
            y,
        ))
    &&& forall|p: int|
        0 <= p < 2 ==> post.planes@[p].width == pre.width && post.planes@[p].height == pre.height
}

/// The scroll-left operation's effect on the planes.
pub open spec fn display_scrolled_left(pre: &Display, post: &Display) -> bool {
    &&& forall|p: int|
        0 <= p < 2 && !plane_active(pre.active_planes, p) ==> post.planes@[p] == pre.planes@[p]
    &&& forall|p: int, x: int, y: int|
        0 <= p < 2 && plane_active(pre.active_planes, p) && 0 <= x < pre.width && 0 <= y
            < pre.height ==> post.planes@[p].pixel(x, y) == (x < pre.width - 4
            && pre.planes@[p].pixel(x + 4, y))
    &&& forall|p: int|
        0 <= p < 2 ==> post.planes@[p].width == pre.width && post.planes@[p].height == pre.height
}

/// The sprite-draw operation's effect on the planes: with both planes
/// active the byte range splits in half between them, otherwise each
/// active plane receives the whole sprite; `c` reports any cleared pixel.
pub open spec fn display_sprite_applied(
    pre: &Display,
    post: &Display,
    sprite: Seq<u8>,
    x: u8,
    y: u8,
    c: bool,
) -> bool {
    if pre.active_planes & 3 == 3 {
        &&& sprite_applied(
            &pre.planes@[0],
            &post.planes@[0],
            sprite.subrange(0, sprite.len() as int / 2),
            x,
            y,
        )
        &&& sprite_applied(
            &pre.planes@[1],
            &post.planes@[1],
            sprite.subrange(sprite.len() as int / 2, sprite.len() as int),
            x,
            y,
        )
        &&& c == (sprite_collides(&pre.planes@[0], sprite.subrange(0, sprite.len() as int / 2), x, y)
            || sprite_collides(
            &pre.planes@[1],
            sprite.subrange(sprite.len() as int / 2, sprite.len() as int),
            x,
            y,
        ))
    } else {
        &&& forall|p: int|
            0 <= p < 2 && plane_active(pre.active_planes, p) ==> sprite_applied(
                &pre.planes@[p],
                &post.planes@[p],
                sprite,
                x,
                y,
            )
        &&& forall|p: int|
            0 <= p < 2 && !plane_active(pre.active_planes, p) ==> post.planes@[p]
                == pre.planes@[p]
        &&& c == (plane_active(pre.active_planes, 0) && sprite_collides(
            &pre.planes@[0],
            sprite,
            x,
            y,
        ) || plane_active(pre.active_planes, 1) && sprite_collides(&pre.planes@[1], sprite, x, y))
    }
}

/// Whether a sprite draw on the active planes clears any set pixel:
/// the collision flag the draw opcode reports.
pub open spec fn display_sprite_collides(pre: &Display, sprite: Seq<u8>, x: u8, y: u8) -> bool {
    if pre.active_planes & 3 == 3 {
        sprite_collides(&pre.planes@[0], sprite.subrange(0, sprite.len() as int / 2), x, y)
            || sprite_collides(
            &pre.planes@[1],
            sprite.subrange(sprite.len() as int / 2, sprite.len() as int),
            x,
            y,
        )
    } else {
        plane_active(pre.active_planes, 0) && sprite_collides(&pre.planes@[0], sprite, x, y)
            || plane_active(pre.active_planes, 1) && sprite_collides(&pre.planes@[1], sprite, x, y)
    }
}

/// The 16 x 16 sprite-draw operation's effect on the planes.
pub open spec fn display_sprite16_applied(
    pre: &Display,
    post: &Display,
    sprite: Seq<u8>,
    x: u8,
    y: u8,
    c: bool,
) -> bool {
    if pre.active_planes & 3 == 3 {
        exists|ca: bool, cb: bool|
            sprite16_applied(&pre.planes@[0], &post.planes@[0], sprite.subrange(0, 32), x, y, ca)
                && sprite16_applied(
                &pre.planes@[1],
                &post.planes@[1],
                sprite.subrange(32, 64),
                x,
                y,
                cb,
            ) && c == (ca || cb)
    } else {
        &&& forall|p: int|
            0 <= p < 2 && !plane_active(pre.active_planes, p) ==> post.planes@[p]
                == pre.planes@[p]
        &&& (pre.active_planes & 3 == 0 ==> c == false)
        &&& forall|p: int|
            0 <= p < 2 && plane_active(pre.active_planes, p) ==> sprite16_applied(
                &pre.planes@[p],
                &post.planes@[p],
                sprite,
                x,
                y,
                c,
            )
    }
}

} // verus!

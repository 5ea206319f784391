//! RGB image buffer and deterministic PNG encoder.
//!
//! The origin is the top-left corner; pixels are stored row-major, three bytes
//! (R, G, B) per pixel, `width * 3` bytes per row.

use crate::byteorder::{push_all, push_u32_be, u32_be};
use crate::checksum::{crc32_spec, crc_absorb, crc_update, lemma_crc_update_concat};
use crate::deflate::{zlib_compress, zlib_spec};
use crate::inflate::{inflate, zlib_body};
use crate::unfilter::{lemma_scanlines_roundtrip, unfilter};
use vstd::arithmetic::div_mod::{lemma_fundamental_div_mod, lemma_div_is_ordered};
use vstd::arithmetic::mul::{lemma_mul_inequality, lemma_mul_is_distributive_add};
use vstd::prelude::*;

verus! {

/// An RGB image.
pub struct Image {
    pub width: usize,
    pub height: usize,
    pub pixels: Vec<u8>,
}

/// Channel `c` of pixel `(x, y)` in a row-major RGB buffer of width `w`.
pub open spec fn pixel_at(pixels: Seq<u8>, w: int, x: int, y: int, c: int) -> u8 {
    pixels[(y * w + x) * 3 + c]
}

/// Sum of channel `c` over the `n` pixels starting at `(x0, y)`.
pub open spec fn row_sum(pixels: Seq<u8>, w: int, x0: int, y: int, c: int, n: int) -> int
    decreases n,
{
    if n <= 0 {
        0
    } else {
        row_sum(pixels, w, x0, y, c, n - 1) + pixel_at(pixels, w, x0 + n - 1, y, c) as int
    }
}

/// Sum of channel `c` over the first `m` rows of the `f`×`f` block `(ox, oy)`.
pub open spec fn block_sum(pixels: Seq<u8>, w: int, f: int, ox: int, oy: int, c: int, m: int) -> int
    decreases m,
{
    if m <= 0 {
        0
    } else {
        block_sum(pixels, w, f, ox, oy, c, m - 1) + row_sum(pixels, w, ox * f, oy * f + m - 1, c, f)
    }
}

proof fn lemma_row_sum_bound(pixels: Seq<u8>, w: int, x0: int, y: int, c: int, n: int)
    requires
        n >= 0,
    ensures
        0 <= row_sum(pixels, w, x0, y, c, n) <= 255 * n,
    decreases n,
{
    if n > 0 {
        lemma_row_sum_bound(pixels, w, x0, y, c, n - 1);
    }
}

proof fn lemma_block_sum_bound(pixels: Seq<u8>, w: int, f: int, ox: int, oy: int, c: int, m: int)
    requires
        m >= 0,
        f >= 0,
    ensures
        0 <= block_sum(pixels, w, f, ox, oy, c, m) <= 255 * f * m,
    decreases m,
{
    if m > 0 {
        lemma_block_sum_bound(pixels, w, f, ox, oy, c, m - 1);
        lemma_row_sum_bound(pixels, w, ox * f, oy * f + m - 1, c, f);
        assert(255 * f * (m - 1) + 255 * f == 255 * f * m) by (nonlinear_arith);
    }
}

/// A block that fits inside an image buffer has a channel sum that fits in
/// a `u128`.
proof fn lemma_block_area_fits(w: int, h: int, f: int)
    requires
        f >= 1,
        w / f >= 1,
        h / f >= 1,
        w * h * 3 <= usize::MAX,
    ensures
        f * f * 255 <= u128::MAX,
{
    lemma_fundamental_div_mod(w, f);
    lemma_fundamental_div_mod(h, f);
    assert(w >= f) by (nonlinear_arith)
        requires
            w == f * (w / f) + w % f,
            w / f >= 1,
            w % f >= 0,
            f >= 1,
    ;
    assert(h >= f) by (nonlinear_arith)
        requires
            h == f * (h / f) + h % f,
            h / f >= 1,
            h % f >= 0,
            f >= 1,
    ;
    assert(f * f <= w * h) by (nonlinear_arith)
        requires
            w >= f,
            h >= f,
            f >= 1,
    ;
    assert(usize::MAX <= u64::MAX);
}

/// A pixel of a block lies inside the image.
proof fn lemma_block_pixel_in_bounds(w: int, h: int, f: int, ox: int, oy: int, dx: int, dy: int)
    requires
        f >= 1,
        0 <= ox < w / f,
        0 <= oy < h / f,
        0 <= dx < f,
        0 <= dy < f,
        w >= 0,
        h >= 0,
    ensures
        0 <= ox * f + dx < w,
        0 <= oy * f + dy < h,
        ((oy * f + dy) * w + (ox * f + dx)) * 3 + 3 <= w * h * 3,
{
    lemma_fundamental_div_mod(w, f);
    lemma_fundamental_div_mod(h, f);
    lemma_mul_inequality(ox + 1, w / f, f);
    lemma_mul_inequality(oy + 1, h / f, f);
    assert((ox + 1) * f == ox * f + f) by (nonlinear_arith);
    assert((oy + 1) * f == oy * f + f) by (nonlinear_arith);
    assert(f * (w / f) == (w / f) * f) by (nonlinear_arith);
    assert(f * (h / f) == (h / f) * f) by (nonlinear_arith);
    assert(0 <= ox * f) by (nonlinear_arith)
        requires
            ox >= 0,
            f >= 1,
    ;
    assert(0 <= oy * f) by (nonlinear_arith)
        requires
            oy >= 0,
            f >= 1,
    ;
    lemma_cell_in_bounds(w, h, ox * f + dx, oy * f + dy);
}

/// Cell `(x, y)` of a `w`×`h` grid has its three bytes inside the buffer.
proof fn lemma_cell_in_bounds(w: int, h: int, x: int, y: int)
    requires
        0 <= x < w,
        0 <= y < h,
    ensures
        0 <= y * w + x,
        (y * w + x) * 3 + 3 <= w * h * 3,
{
    lemma_mul_inequality(y, h - 1, w);
    assert((h - 1) * w + w == w * h) by (nonlinear_arith);
    assert(0 <= y * w) by (nonlinear_arith)
        requires
            y >= 0,
            w >= 0,
    ;
}

/// Cells earlier in row-major order have smaller linear indices.
proof fn lemma_cell_order(w: int, x1: int, y1: int, x2: int, y2: int)
    requires
        0 <= x1 < w,
        0 <= x2 < w,
        0 <= y1,
        0 <= y2,
        y1 < y2 || (y1 == y2 && x1 < x2),
    ensures
        y1 * w + x1 < y2 * w + x2,
{
    if y1 < y2 {
        lemma_mul_inequality(y1 + 1, y2, w);
        assert((y1 + 1) * w == y1 * w + w) by (nonlinear_arith);
    }
}

impl Image {
    /// The buffer holds exactly `width * height` RGB pixels.
    pub open spec fn wf(&self) -> bool {
        self.pixels@.len() == self.width * self.height * 3
    }

    /// A `width`×`height` image filled with `bg`.
    pub fn new(width: usize, height: usize, bg: [u8; 3]) -> (img: Image)
        requires
            width * height * 3 <= usize::MAX,
        ensures
            img.width == width,
            img.height == height,
            img.wf(),
            forall|i: int| 0 <= i < img.pixels@.len() ==> #[trigger] img.pixels@[i] == bg@[i % 3],
    {
        let n = width * height;
        let mut pixels: Vec<u8> = Vec::new();
        let mut k: usize = 0;
        while k < n
            invariant
                k <= n,
                n == width * height,
                n * 3 <= usize::MAX,
                pixels@.len() == 3 * k,
                forall|i: int| 0 <= i < pixels@.len() ==> #[trigger] pixels@[i] == bg@[i % 3],
            decreases n - k,
        {
            let ghost before = pixels@;
            pixels.push(bg[0]);
            pixels.push(bg[1]);
            pixels.push(bg[2]);
            proof {
                assert forall|i: int| 0 <= i < pixels@.len() implies #[trigger] pixels@[i] == bg@[i
                    % 3] by {
                    if i >= 3 * k {
                        assert(i % 3 == i - 3 * k);
                    } else {
                        assert(pixels@[i] == before[i]);
                    }
                }
            }
            k += 1;
        }
        Image { width, height, pixels }
    }

    /// Sets pixel `(x, y)` to `rgb`.
    pub fn set(&mut self, x: usize, y: usize, rgb: [u8; 3])
        requires
            (y * old(self).width + x) * 3 + 3 <= old(self).pixels@.len(),
        ensures
            final(self).width == old(self).width,
            final(self).height == old(self).height,
            final(self).pixels@ == old(self).pixels@.update(
                (y * old(self).width + x) * 3,
                rgb@[0],
            ).update((y * old(self).width + x) * 3 + 1, rgb@[1]).update(
                (y * old(self).width + x) * 3 + 2,
                rgb@[2],
            ),
    {
        proof {
            assert(self.pixels@.len() == self.pixels.len());
            assert(0 <= y * self.width) by (nonlinear_arith)
                requires
                    y >= 0,
                    self.width >= 0,
            ;
        }
        let off = (y * self.width + x) * 3;
        self.pixels.set(off, rgb[0]);
        self.pixels.set(off + 1, rgb[1]);
        self.pixels.set(off + 2, rgb[2]);
    }

    /// Downsamples by averaging `factor`×`factor` blocks (integer mean,
    /// rounded down). The result is `width / factor` by `height / factor`;
    /// a `factor` of 0 or 1 copies the image. Block sums are kept in `u128`,
    /// so no factor can overflow them.
    pub fn downsample(&self, factor: usize) -> (out: Image)
        requires
            self.wf(),
        ensures
            factor <= 1 ==> out.width == self.width && out.height == self.height && out.pixels@
                == self.pixels@,
            factor > 1 ==> out.width == self.width / factor && out.height == self.height / factor,
            factor > 1 ==> forall|ox: int, oy: int, c: int|
                0 <= ox < out.width && 0 <= oy < out.height && 0 <= c < 3 ==> #[trigger] pixel_at(
                    out.pixels@,
                    out.width as int,
                    ox,
                    oy,
                    c,
                ) == (block_sum(self.pixels@, self.width as int, factor as int, ox, oy, c, factor as int)
                    / (factor * factor)) as u8,
            out.wf(),
    {
        if factor <= 1 {
            let mut pixels: Vec<u8> = Vec::new();
            push_all(&mut pixels, self.pixels.as_slice());
            return Image { width: self.width, height: self.height, pixels };
        }
        let w = self.width;
        let h = self.height;
        let ow = w / factor;
        let oh = h / factor;
        proof {
            assert(self.pixels@.len() == self.pixels.len());
            lemma_div_is_ordered(0, w as int, factor as int);
            lemma_div_is_ordered(0, h as int, factor as int);
            assert(ow <= w && oh <= h) by {
                lemma_fundamental_div_mod(w as int, factor as int);
                lemma_fundamental_div_mod(h as int, factor as int);
                assert(factor * ow >= ow) by (nonlinear_arith)
                    requires
                        factor >= 1,
                        ow >= 0,
                ;
                assert(factor * oh >= oh) by (nonlinear_arith)
                    requires
                        factor >= 1,
                        oh >= 0,
                ;
            }
            assert(ow * oh * 3 <= w * h * 3) by (nonlinear_arith)
                requires
                    ow <= w,
                    oh <= h,
                    ow >= 0,
                    oh >= 0,
            ;
        }
        let mut out = Image::new(ow, oh, [0, 0, 0]);
        proof {
            assert(factor * factor <= u128::MAX) by (nonlinear_arith)
                requires
                    factor <= usize::MAX,
                    usize::MAX <= u64::MAX,
            ;
        }
        let n: u128 = (factor as u128) * (factor as u128);
        let ghost src = self.pixels@;
        let ghost f = factor as int;
        let mut oy: usize = 0;
        while oy < oh
            invariant
                self.wf(),
                src == self.pixels@,
                w == self.width,
                h == self.height,
                f == factor,
                factor > 1,
                n == factor * factor,
                ow == w / factor,
                oh == h / factor,
                oy <= oh,
                out.width == ow,
                out.height == oh,
                out.wf(),
                forall|ox2: int, oy2: int, c: int|
                    0 <= ox2 < ow && 0 <= oy2 < oy && 0 <= c < 3 ==> #[trigger] pixel_at(
                        out.pixels@,
                        ow as int,
                        ox2,
                        oy2,
                        c,
                    ) == (block_sum(src, w as int, f, ox2, oy2, c, f) / (f * f)) as u8,
            decreases oh - oy,
        {
            let mut ox: usize = 0;
            while ox < ow
                invariant
                    self.wf(),
                    src == self.pixels@,
                    w == self.width,
                    h == self.height,
                    f == factor,
                    factor > 1,
                        n == factor * factor,
                    ow == w / factor,
                    oh == h / factor,
                    oy < oh,
                    ox <= ow,
                    out.width == ow,
                    out.height == oh,
                    out.wf(),
                    forall|ox2: int, oy2: int, c: int|
                        0 <= ox2 < ow && 0 <= oy2 < oh && 0 <= c < 3 && (oy2 < oy || (oy2 == oy
                            && ox2 < ox)) ==> #[trigger] pixel_at(out.pixels@, ow as int, ox2, oy2, c)
                            == (block_sum(src, w as int, f, ox2, oy2, c, f) / (f * f)) as u8,
                decreases ow - ox,
            {
                let (a0, a1, a2) = self.block_sums(factor, ox, oy);
                proof {
                    lemma_block_sum_bound(src, w as int, f, ox as int, oy as int, 0, f);
                    lemma_block_sum_bound(src, w as int, f, ox as int, oy as int, 1, f);
                    lemma_block_sum_bound(src, w as int, f, ox as int, oy as int, 2, f);
                    assert(255 * f * f == 255 * (f * f)) by (nonlinear_arith);
                    assert(n > 0) by (nonlinear_arith)
                        requires
                            n == f * f,
                            f > 1,
                    ;
                    lemma_div_is_ordered(a0 as int, 255 * (n as int), n as int);
                    lemma_div_is_ordered(a1 as int, 255 * (n as int), n as int);
                    lemma_div_is_ordered(a2 as int, 255 * (n as int), n as int);
                    assert(255 * (n as int) / (n as int) == 255) by (nonlinear_arith)
                        requires
                            n > 0,
                    ;
                    lemma_cell_in_bounds(ow as int, oh as int, ox as int, oy as int);
                }
                let ghost before = out.pixels@;
                out.set(ox, oy, [(a0 / n) as u8, (a1 / n) as u8, (a2 / n) as u8]);
                proof {
                    let p = oy * ow + ox;
                    assert forall|ox2: int, oy2: int, c: int|
                        0 <= ox2 < ow && 0 <= oy2 < oh && 0 <= c < 3 && (oy2 < oy || (oy2 == oy
                            && ox2 < ox + 1)) implies #[trigger] pixel_at(
                        out.pixels@,
                        ow as int,
                        ox2,
                        oy2,
                        c,
                    ) == (block_sum(src, w as int, f, ox2, oy2, c, f) / (f * f)) as u8 by {
                        if oy2 == oy && ox2 == ox {
                            assert(oy2 * ow + ox2 == p);
                        } else {
                            lemma_cell_order(ow as int, ox2, oy2, ox as int, oy as int);
                            assert(pixel_at(out.pixels@, ow as int, ox2, oy2, c) == pixel_at(
                                before,
                                ow as int,
                                ox2,
                                oy2,
                                c,
                            ));
                        }
                    }
                }
                ox += 1;
            }
            oy += 1;
        }
        out
    }

    /// Channel sums of the `factor`×`factor` block `(ox, oy)`.
    fn block_sums(&self, factor: usize, ox: usize, oy: usize) -> (r: (u128, u128, u128))
        requires
            self.wf(),
            factor >= 1,
            ox < self.width / factor,
            oy < self.height / factor,
        ensures
            r.0 == block_sum(self.pixels@, self.width as int, factor as int, ox as int, oy as int, 0, factor as int),
            r.1 == block_sum(self.pixels@, self.width as int, factor as int, ox as int, oy as int, 1, factor as int),
            r.2 == block_sum(self.pixels@, self.width as int, factor as int, ox as int, oy as int, 2, factor as int),
    {
        let ghost src = self.pixels@;
        let ghost w = self.width as int;
        let ghost f = factor as int;
        proof {
            assert(self.pixels@.len() == self.pixels.len());
            lemma_block_area_fits(self.width as int, self.height as int, f);
        }
        let mut a0: u128 = 0;
        let mut a1: u128 = 0;
        let mut a2: u128 = 0;
        let mut dy: usize = 0;
        while dy < factor
            invariant
                self.wf(),
                src == self.pixels@,
                w == self.width,
                f == factor,
                factor >= 1,
                factor * factor * 255 <= u128::MAX,
                ox < self.width / factor,
                oy < self.height / factor,
                dy <= factor,
                a0 == block_sum(src, w, f, ox as int, oy as int, 0, dy as int),
                a1 == block_sum(src, w, f, ox as int, oy as int, 1, dy as int),
                a2 == block_sum(src, w, f, ox as int, oy as int, 2, dy as int),
            decreases factor - dy,
        {
            let mut dx: usize = 0;
            while dx < factor
                invariant
                    self.wf(),
                    src == self.pixels@,
                    w == self.width,
                    f == factor,
                    factor >= 1,
                    factor * factor * 255 <= u128::MAX,
                    ox < self.width / factor,
                    oy < self.height / factor,
                    dy < factor,
                    dx <= factor,
                    a0 == block_sum(src, w, f, ox as int, oy as int, 0, dy as int) + row_sum(src, w, ox * f, oy * f + dy, 0, dx as int),
                    a1 == block_sum(src, w, f, ox as int, oy as int, 1, dy as int) + row_sum(src, w, ox * f, oy * f + dy, 1, dx as int),
                    a2 == block_sum(src, w, f, ox as int, oy as int, 2, dy as int) + row_sum(src, w, ox * f, oy * f + dy, 2, dx as int),
                decreases factor - dx,
            {
                proof {
                    assert(self.pixels@.len() == self.pixels.len());
                    lemma_block_pixel_in_bounds(
                        self.width as int,
                        self.height as int,
                        f,
                        ox as int,
                        oy as int,
                        dx as int,
                        dy as int,
                    );
                    lemma_block_sum_bound(src, w, f, ox as int, oy as int, 0, dy as int);
                    lemma_block_sum_bound(src, w, f, ox as int, oy as int, 1, dy as int);
                    lemma_block_sum_bound(src, w, f, ox as int, oy as int, 2, dy as int);
                    lemma_row_sum_bound(src, w, ox * f, oy * f + dy, 0, dx as int);
                    lemma_row_sum_bound(src, w, ox * f, oy * f + dy, 1, dx as int);
                    lemma_row_sum_bound(src, w, ox * f, oy * f + dy, 2, dx as int);
                    assert(255 * f * f == factor * factor * 255) by (nonlinear_arith)
                        requires
                            f == factor,
                    ;
                    assert(255 * f * dy + 255 * dx + 255 <= 255 * f * f) by (nonlinear_arith)
                        requires
                            dy < f,
                            dx < f,
                            dy >= 0,
                            dx >= 0,
                    ;
                }
                let off = ((oy * factor + dy) * self.width + (ox * factor + dx)) * 3;
                a0 += self.pixels[off] as u128;
                a1 += self.pixels[off + 1] as u128;
                a2 += self.pixels[off + 2] as u128;
                proof {
                    assert(pixel_at(src, w, ox * f + dx, oy * f + dy, 0) == src[off as int]);
                    assert(pixel_at(src, w, ox * f + dx, oy * f + dy, 1) == src[off + 1]);
                    assert(pixel_at(src, w, ox * f + dx, oy * f + dy, 2) == src[off + 2]);
                }
                dx += 1;
            }
            dy += 1;
        }
        (a0, a1, a2)
    }
}

/// CRC-32 over `tag` followed by `data` (a PNG chunk's checksum).
pub fn crc32(tag: &[u8], data: &[u8]) -> (crc: u32)
    ensures
        crc == crc32_spec(tag@ + data@),
{
    let c = crc_absorb(0xFFFF_FFFF, tag);
    let c = crc_absorb(c, data);
    proof {
        lemma_crc_update_concat(0xFFFF_FFFFu32, tag@, data@);
    }
    !c
}

// ── PNG ──────────────────────────────────────────────────────────────────────

/// `a - b` modulo 256.
pub open spec fn wsub(a: u8, b: u8) -> u8 {
    if a >= b {
        (a - b) as u8
    } else {
        (a - b + 256) as u8
    }
}

/// Magnitude of a byte read as a signed `i8`.
pub open spec fn abs_i8(b: u8) -> nat {
    if b < 128 {
        b as nat
    } else {
        (256 - b) as nat
    }
}

/// Sum of the signed magnitudes of a byte sequence.
pub open spec fn abs_sum(s: Seq<u8>) -> nat
    decreases s.len(),
{
    if s.len() == 0 {
        0
    } else {
        abs_sum(s.drop_last()) + abs_i8(s.last())
    }
}

/// The Sub filter of a row: each byte minus the byte one pixel to the left.
pub open spec fn sub_filter(row: Seq<u8>) -> Seq<u8> {
    Seq::new(
        row.len(),
        |i: int|
            wsub(
                row[i],
                if i >= 3 {
                    row[i - 3]
                } else {
                    0
                },
            ),
    )
}

/// The Up filter of a row: each byte minus the byte above it.
pub open spec fn up_filter(row: Seq<u8>, prev: Option<Seq<u8>>) -> Seq<u8> {
    Seq::new(
        row.len(),
        |i: int|
            wsub(
                row[i],
                match prev {
                    Some(p) => p[i],
                    None => 0,
                },
            ),
    )
}

/// The filter type chosen for a row: the smallest signed-magnitude sum, the
/// lower type number (None 0 < Sub 1 < Up 2) on a tie.
pub open spec fn best_filter_type(row: Seq<u8>, prev: Option<Seq<u8>>) -> u8 {
    let sn = abs_sum(row);
    let ss = abs_sum(sub_filter(row));
    let su = abs_sum(up_filter(row, prev));
    if ss < sn {
        if su < ss {
            2
        } else {
            1
        }
    } else if su < sn {
        2
    } else {
        0
    }
}

/// The filtered row: its filter type byte followed by the filtered bytes.
pub open spec fn best_filter(row: Seq<u8>, prev: Option<Seq<u8>>) -> Seq<u8> {
    let t = best_filter_type(row, prev);
    seq![t] + if t == 1 {
        sub_filter(row)
    } else if t == 2 {
        up_filter(row, prev)
    } else {
        row
    }
}

/// Row `r` of a buffer with `stride` bytes per row.
pub open spec fn row_of(pixels: Seq<u8>, stride: int, r: int) -> Seq<u8> {
    pixels.subrange(r * stride, (r + 1) * stride)
}

/// The filtered scanline bytes of the first `rows` rows.
pub open spec fn scanlines(pixels: Seq<u8>, stride: int, rows: int, adaptive: bool) -> Seq<u8>
    decreases rows,
{
    if rows <= 0 {
        Seq::empty()
    } else {
        let r = rows - 1;
        scanlines(pixels, stride, r, adaptive) + if adaptive {
            best_filter(
                row_of(pixels, stride, r),
                if r == 0 {
                    None
                } else {
                    Some(row_of(pixels, stride, r - 1))
                },
            )
        } else {
            seq![0u8] + row_of(pixels, stride, r)
        }
    }
}

/// A PNG chunk: length, tag, data, CRC-32 of tag and data.
pub open spec fn png_chunk(tag: Seq<u8>, data: Seq<u8>) -> Seq<u8> {
    u32_be(data.len() as int % 0x1_0000_0000) + tag + data + u32_be(crc32_spec(tag + data) as int)
}

/// The PNG signature.
pub open spec fn png_signature() -> Seq<u8> {
    seq![0x89u8, 0x50, 0x4E, 0x47, 0x0D, 0x0A, 0x1A, 0x0A]
}

/// IHDR data: width, height, bit depth 8, colour type 2 (RGB), then
/// compression, filter and interlace method 0.
pub open spec fn ihdr_data(width: int, height: int) -> Seq<u8> {
    u32_be(width % 0x1_0000_0000) + u32_be(height % 0x1_0000_0000) + seq![8u8, 2, 0, 0, 0]
}

/// A PNG file with one IDAT chunk.
pub open spec fn png_file(width: int, height: int, idat: Seq<u8>) -> Seq<u8> {
    png_signature() + png_chunk(seq![0x49u8, 0x48, 0x44, 0x52], ihdr_data(width, height))
        + png_chunk(seq![0x49u8, 0x44, 0x41, 0x54], idat) + png_chunk(
        seq![0x49u8, 0x45, 0x4E, 0x44],
        Seq::empty(),
    )
}

/// Longest row `filter_abs_sum` can total without leaving `u64`.
pub open spec fn max_abs_sum_len() -> int {
    0x1FF_FFFF_FFFF_FFFF
}

/// Sum of the bytes' magnitudes read as signed `i8` (the minimum-sum-of-
/// absolute-differences score of a filtered row).
pub fn filter_abs_sum(bytes: &[u8]) -> (r: u64)
    requires
        bytes@.len() <= max_abs_sum_len(),
    ensures
        r == abs_sum(bytes@),
{
    let mut sum: u64 = 0;
    let mut i: usize = 0;
    while i < bytes.len()
        invariant
            i <= bytes.len(),
            bytes@.len() <= max_abs_sum_len(),
            sum == abs_sum(bytes@.take(i as int)),
            sum <= 128 * i,
        decreases bytes.len() - i,
    {
        let b = bytes[i];
        let m: u64 = if b < 128 {
            b as u64
        } else {
            256 - b as u64
        };
        proof {
            assert(bytes@.take(i + 1).drop_last() =~= bytes@.take(i as int));
        }
        sum = sum + m;
        i += 1;
    }
    proof {
        assert(bytes@.take(bytes.len() as int) =~= bytes@);
    }
    sum
}

/// Appends `row` filtered with the best of None, Sub and Up, preceded by the
/// filter type byte.
pub fn push_best_filter(out: &mut Vec<u8>, row: &[u8], prev: Option<&[u8]>)
    requires
        row@.len() <= max_abs_sum_len(),
        match prev {
            Some(p) => p@.len() >= row@.len(),
            None => true,
        },
    ensures
        final(out)@ == old(out)@ + best_filter(
            row@,
            match prev {
                Some(p) => Some(p@),
                None => None,
            },
        ),
{
    let ghost pv: Option<Seq<u8>> = match prev {
        Some(p) => Some(p@),
        None => None,
    };
    let n = row.len();
    let mut sub: Vec<u8> = Vec::new();
    let mut up: Vec<u8> = Vec::new();
    let mut i: usize = 0;
    while i < n
        invariant
            n == row@.len(),
            i <= n,
            pv == (match prev {
                Some(p) => Some(p@),
                None => None::<Seq<u8>>,
            }),
            match prev {
                Some(p) => p@.len() >= n,
                None => true,
            },
            sub@ == sub_filter(row@).take(i as int),
            up@ == up_filter(row@, pv).take(i as int),
        decreases n - i,
    {
        let a = if i >= 3 {
            row[i - 3]
        } else {
            0
        };
        sub.push(row[i].wrapping_sub(a));
        let above = match prev {
            Some(p) => p[i],
            None => 0,
        };
        up.push(row[i].wrapping_sub(above));
        i += 1;
        proof {
            assert(sub@ =~= sub_filter(row@).take(i as int));
            assert(up@ =~= up_filter(row@, pv).take(i as int));
        }
    }
    proof {
        assert(sub@ =~= sub_filter(row@));
        assert(up@ =~= up_filter(row@, pv));
    }
    let mut best_type: u8 = 0;
    let mut best_score = filter_abs_sum(row);
    let s_sub = filter_abs_sum(sub.as_slice());
    if s_sub < best_score {
        best_score = s_sub;
        best_type = 1;
    }
    let s_up = filter_abs_sum(up.as_slice());
    if s_up < best_score {
        best_type = 2;
    }
    let ghost before = out@;
    out.push(best_type);
    if best_type == 1 {
        push_all(out, sub.as_slice());
    } else if best_type == 2 {
        push_all(out, up.as_slice());
    } else {
        push_all(out, row);
    }
    proof {
        assert(best_type == best_filter_type(row@, pv));
        assert(out@ =~= before + best_filter(row@, pv));
    }
}

/// Appends the chunk `tag`/`data`.
fn write_chunk(out: &mut Vec<u8>, tag: &[u8; 4], data: &[u8])
    ensures
        final(out)@ == old(out)@ + png_chunk(tag@, data@),
{
    push_u32_be(out, (data.len() as u64 % 0x1_0000_0000) as u32);
    push_all(out, tag.as_slice());
    push_all(out, data);
    let crc = crc32(tag.as_slice(), data);
    push_u32_be(out, crc);
    proof {
        assert(final(out)@ =~= old(out)@ + png_chunk(tag@, data@));
    }
}

/// Row `r` lies inside a buffer of `rows` rows.
proof fn lemma_row_in_bounds(stride: int, rows: int, r: int)
    requires
        0 <= r < rows,
        stride >= 0,
    ensures
        0 <= r * stride,
        (r + 1) * stride <= rows * stride,
        (r + 1) * stride == r * stride + stride,
{
    lemma_mul_inequality(r + 1, rows, stride);
    assert((r + 1) * stride == r * stride + stride) by (nonlinear_arith);
    assert(0 <= r * stride) by (nonlinear_arith)
        requires
            r >= 0,
            stride >= 0,
    ;
}

impl Image {
    /// The image bytes before compression: each row preceded by its filter
    /// type; all rows unfiltered (type 0) unless `adaptive`, in which case each
    /// row takes the best of None, Sub and Up.
    pub fn filtered_scanlines(&self, adaptive: bool) -> (raw: Vec<u8>)
        requires
            self.wf(),
            self.width * 3 <= max_abs_sum_len(),
            self.width * 3 <= usize::MAX,
        ensures
            raw@ == scanlines(self.pixels@, self.width * 3, self.height as int, adaptive),
    {
        proof {
            assert(self.pixels@.len() == self.pixels.len());
            assert(self.width * self.height * 3 == self.height * (self.width * 3)) by (nonlinear_arith);
        }
        let stride = self.width * 3;
        let mut raw: Vec<u8> = Vec::new();
        let mut prev: Option<&[u8]> = None;
        let mut row: usize = 0;
        while row < self.height
            invariant
                self.wf(),
                stride == self.width * 3,
                stride <= max_abs_sum_len(),
                self.pixels@.len() == self.height * stride,
                row <= self.height,
                raw@ == scanlines(self.pixels@, stride as int, row as int, adaptive),
                row == 0 ==> prev is None,
                row > 0 ==> (prev matches Some(p) && p@ == row_of(
                    self.pixels@,
                    stride as int,
                    row - 1,
                )),
            decreases self.height - row,
        {
            proof {
                assert(self.pixels@.len() == self.pixels.len());
                lemma_row_in_bounds(stride as int, self.height as int, row as int);
                if row > 0 {
                    lemma_row_in_bounds(stride as int, self.height as int, row - 1);
                    assert(row_of(self.pixels@, stride as int, row - 1).len() == stride);
                }
            }
            let cur = &self.pixels.as_slice()[row * stride..(row + 1) * stride];
            proof {
                assert(cur@ =~= row_of(self.pixels@, stride as int, row as int));
            }
            let ghost before = raw@;
            if adaptive {
                push_best_filter(&mut raw, cur, prev);
            } else {
                raw.push(0x00);
                push_all(&mut raw, cur);
            }
            proof {
                assert(raw@ =~= scanlines(self.pixels@, stride as int, row + 1, adaptive));
            }
            prev = Some(cur);
            row += 1;
        }
        raw
    }

    /// The PNG file of the image: signature, IHDR, one IDAT holding the zlib
    /// stream of the filtered scanlines, IEND. The IDAT data is the
    /// adaptively filtered stream when strictly shorter, else the unfiltered
    /// one, so it is never longer than the unfiltered stream.
    #[verifier::rlimit(40)]
    pub fn encode_png(&self) -> (out: Vec<u8>)
        requires
            self.wf(),
            self.width * 3 <= max_abs_sum_len(),
            self.width * 3 <= usize::MAX,
        ensures
            ({
                let none = zlib_spec(scanlines(self.pixels@, self.width * 3, self.height as int, false));
                let adaptive = zlib_spec(
                    scanlines(self.pixels@, self.width * 3, self.height as int, true),
                );
                let idat = if adaptive.len() < none.len() {
                    adaptive
                } else {
                    none
                };
                let raw = scanlines(
                    self.pixels@,
                    self.width * 3,
                    self.height as int,
                    adaptive.len() < none.len(),
                );
                &&& out@ == png_file(self.width as int, self.height as int, idat)
                &&& idat.len() <= none.len()
                &&& inflate(zlib_body(idat)) == Some(raw)
                &&& unfilter(raw, self.width * 3, self.height as int) == self.pixels@
            }),
    {
        let mut out: Vec<u8> = Vec::new();
        out.push(0x89);
        out.push(0x50);
        out.push(0x4E);
        out.push(0x47);
        out.push(0x0D);
        out.push(0x0A);
        out.push(0x1A);
        out.push(0x0A);
        let mut ihdr: Vec<u8> = Vec::new();
        push_u32_be(&mut ihdr, (self.width as u64 % 0x1_0000_0000) as u32);
        push_u32_be(&mut ihdr, (self.height as u64 % 0x1_0000_0000) as u32);
        ihdr.push(8);
        ihdr.push(2);
        ihdr.push(0);
        ihdr.push(0);
        ihdr.push(0);
        proof {
            assert(ihdr@ =~= ihdr_data(self.width as int, self.height as int));
        }
        let ghost head = out@;
        write_chunk(&mut out, &[0x49, 0x48, 0x44, 0x52], ihdr.as_slice());
        let ghost with_ihdr = out@;
        let raw_none = self.filtered_scanlines(false);
        let raw_adaptive = self.filtered_scanlines(true);
        let idat_none = zlib_compress(raw_none.as_slice());
        let idat_adaptive = zlib_compress(raw_adaptive.as_slice());
        let idat = if idat_adaptive.len() < idat_none.len() {
            idat_adaptive
        } else {
            idat_none
        };
        write_chunk(&mut out, &[0x49, 0x44, 0x41, 0x54], idat.as_slice());
        let ghost with_idat = out@;
        let empty: Vec<u8> = Vec::new();
        write_chunk(&mut out, &[0x49, 0x45, 0x4E, 0x44], empty.as_slice());
        proof {
            let t1 = seq![0x49u8, 0x48, 0x44, 0x52];
            let t2 = seq![0x49u8, 0x44, 0x41, 0x54];
            let t3 = seq![0x49u8, 0x45, 0x4E, 0x44];
            assert([0x49u8, 0x48, 0x44, 0x52]@ =~= t1);
            assert([0x49u8, 0x44, 0x41, 0x54]@ =~= t2);
            assert([0x49u8, 0x45, 0x4E, 0x44]@ =~= t3);
            assert(head =~= png_signature());
            assert(empty@ =~= Seq::<u8>::empty());
            assert(with_ihdr == head + png_chunk(t1, ihdr_data(self.width as int, self.height as int)));
            assert(with_idat == with_ihdr + png_chunk(t2, idat@));
            assert(out@ == with_idat + png_chunk(t3, Seq::empty()));
            assert(out@ =~= png_file(self.width as int, self.height as int, idat@));
            assert(self.width * self.height * 3 == self.height * (self.width * 3)) by (nonlinear_arith);
            lemma_scanlines_roundtrip(self.pixels@, self.width * 3, self.height as int, true);
            lemma_scanlines_roundtrip(self.pixels@, self.width * 3, self.height as int, false);
        }
        out
    }
}

} // verus!

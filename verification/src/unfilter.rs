//! The PNG scanline decoder (filter types None, Sub and Up) as a
//! specification, and the proof that it restores the pixels from the
//! scanlines `Image::filtered_scanlines` produces.

use crate::image::{
    best_filter, best_filter_type, row_of, scanlines, sub_filter, up_filter, wsub,
};
use vstd::arithmetic::mul::lemma_mul_inequality;
use vstd::prelude::*;

verus! {

/// `a + b` modulo 256.
pub open spec fn wadd(a: u8, b: u8) -> u8 {
    ((a as int + b as int) % 256) as u8
}

/// The first `k` bytes of a row reconstructed from its Sub-filtered bytes.
pub open spec fn unsub(f: Seq<u8>, k: int) -> Seq<u8>
    decreases k,
{
    if k <= 0 {
        Seq::empty()
    } else {
        let r = unsub(f, k - 1);
        r.push(
            wadd(
                f[k - 1],
                if k - 1 >= 3 {
                    r[k - 4]
                } else {
                    0
                },
            ),
        )
    }
}

/// A row reconstructed from its Up-filtered bytes and the row above.
pub open spec fn unup(f: Seq<u8>, prev: Option<Seq<u8>>) -> Seq<u8> {
    Seq::new(
        f.len(),
        |i: int|
            wadd(
                f[i],
                match prev {
                    Some(p) => p[i],
                    None => 0,
                },
            ),
    )
}

/// A row reconstructed from its filter type and filtered bytes.
pub open spec fn unfilter_row(t: u8, f: Seq<u8>, prev: Option<Seq<u8>>) -> Seq<u8> {
    if t == 1 {
        unsub(f, f.len() as int)
    } else if t == 2 {
        unup(f, prev)
    } else {
        f
    }
}

/// The pixel bytes of the first `rows` rows decoded from scanlines `raw`
/// (each row a filter type byte and `stride` filtered bytes).
pub open spec fn unfilter(raw: Seq<u8>, stride: int, rows: int) -> Seq<u8>
    decreases rows,
{
    if rows <= 0 {
        Seq::empty()
    } else {
        let r = rows - 1;
        let before = unfilter(raw, stride, r);
        let line = raw.subrange(r * (stride + 1), (r + 1) * (stride + 1));
        let prev = if r == 0 {
            None
        } else {
            Some(before.subrange((r - 1) * stride, r * stride))
        };
        before + unfilter_row(line[0], line.subrange(1, stride + 1), prev)
    }
}

proof fn lemma_wadd_wsub(a: u8, b: u8)
    ensures
        wadd(wsub(a, b), b) == a,
{
}

proof fn lemma_unsub(row: Seq<u8>, k: int)
    requires
        0 <= k <= row.len(),
    ensures
        unsub(sub_filter(row), k) == row.take(k),
    decreases k,
{
    if k > 0 {
        lemma_unsub(row, k - 1);
        let f = sub_filter(row);
        let a = if k - 1 >= 3 {
            row[k - 4]
        } else {
            0
        };
        lemma_wadd_wsub(row[k - 1], a);
        assert(unsub(f, k - 1).push(wadd(f[k - 1], a)) =~= row.take(k));
    }
}

/// Decoding a filtered row with the row above restores it.
pub proof fn lemma_unfilter_best(row: Seq<u8>, prev: Option<Seq<u8>>)
    requires
        match prev {
            Some(p) => p.len() >= row.len(),
            None => true,
        },
    ensures
        ({
            let line = best_filter(row, prev);
            unfilter_row(line[0], line.subrange(1, line.len() as int), prev) == row
        }),
{
    let line = best_filter(row, prev);
    let t = best_filter_type(row, prev);
    assert(line[0] == t);
    if t == 1 {
        assert(line.subrange(1, line.len() as int) =~= sub_filter(row));
        lemma_unsub(row, row.len() as int);
        assert(row.take(row.len() as int) =~= row);
    } else if t == 2 {
        assert(line.subrange(1, line.len() as int) =~= up_filter(row, prev));
        assert forall|i: int| 0 <= i < row.len() implies #[trigger] unup(up_filter(row, prev), prev)[i]
            == row[i] by {
            lemma_wadd_wsub(
                row[i],
                match prev {
                    Some(p) => p[i],
                    None => 0,
                },
            );
        }
        assert(unup(up_filter(row, prev), prev) =~= row);
    } else {
        assert(line.subrange(1, line.len() as int) =~= row);
    }
}

proof fn lemma_best_filter_len(row: Seq<u8>, prev: Option<Seq<u8>>)
    ensures
        best_filter(row, prev).len() == row.len() + 1,
{
    assert(sub_filter(row).len() == row.len());
    assert(up_filter(row, prev).len() == row.len());
}

/// The scanline of row `r` (filter type byte, then the filtered row).
pub open spec fn scan_line(pixels: Seq<u8>, stride: int, r: int, adaptive: bool) -> Seq<u8> {
    if adaptive {
        best_filter(
            row_of(pixels, stride, r),
            if r == 0 {
                None
            } else {
                Some(row_of(pixels, stride, r - 1))
            },
        )
    } else {
        seq![0u8] + row_of(pixels, stride, r)
    }
}

proof fn lemma_scanlines_len(pixels: Seq<u8>, stride: int, rows: int, adaptive: bool)
    requires
        stride >= 0,
        rows >= 0,
        rows * stride <= pixels.len(),
    ensures
        scanlines(pixels, stride, rows, adaptive).len() == rows * (stride + 1),
    decreases rows,
{
    if rows > 0 {
        let r = rows - 1;
        lemma_mul_inequality(r, rows, stride);
        assert(rows * stride == r * stride + stride) by (nonlinear_arith)
            requires
                r == rows - 1,
        ;
        lemma_scanlines_len(pixels, stride, r, adaptive);
        assert(0 <= r * stride) by (nonlinear_arith)
            requires
                r >= 0,
                stride >= 0,
        ;
        assert(row_of(pixels, stride, r).len() == stride);
        lemma_best_filter_len(
            row_of(pixels, stride, r),
            if r == 0 {
                None
            } else {
                Some(row_of(pixels, stride, r - 1))
            },
        );
        assert(scan_line(pixels, stride, r, adaptive).len() == stride + 1);
        assert(scanlines(pixels, stride, rows, adaptive) == scanlines(pixels, stride, r, adaptive)
            + scan_line(pixels, stride, r, adaptive));
        assert(rows * (stride + 1) == r * (stride + 1) + stride + 1) by (nonlinear_arith)
            requires
                r == rows - 1,
        ;
        assert(scanlines(pixels, stride, r, adaptive).len() == r * (stride + 1));
    } else {
        assert(rows * (stride + 1) == 0) by (nonlinear_arith)
            requires
                rows == 0,
        ;
    }
}

proof fn lemma_scanlines_prefix(pixels: Seq<u8>, stride: int, k: int, rows: int, adaptive: bool)
    requires
        stride >= 0,
        0 <= k <= rows,
        rows * stride <= pixels.len(),
    ensures
        k * (stride + 1) <= scanlines(pixels, stride, rows, adaptive).len(),
        scanlines(pixels, stride, rows, adaptive).subrange(0, k * (stride + 1)) == scanlines(
            pixels,
            stride,
            k,
            adaptive,
        ),
    decreases rows - k,
{
    lemma_mul_inequality(k, rows, stride);
    lemma_scanlines_len(pixels, stride, rows, adaptive);
    lemma_scanlines_len(pixels, stride, k, adaptive);
    lemma_mul_inequality(k, rows, stride + 1);
    if k < rows {
        lemma_mul_inequality(rows - 1, rows, stride);
        lemma_scanlines_prefix(pixels, stride, k, rows - 1, adaptive);
        lemma_scanlines_len(pixels, stride, rows - 1, adaptive);
        let a = scanlines(pixels, stride, rows - 1, adaptive);
        let full = scanlines(pixels, stride, rows, adaptive);
        assert(full.subrange(0, a.len() as int) =~= a);
        assert(full.subrange(0, k * (stride + 1)) =~= a.subrange(0, k * (stride + 1)));
    } else {
        assert(scanlines(pixels, stride, rows, adaptive).subrange(0, k * (stride + 1)) =~= scanlines(
            pixels,
            stride,
            rows,
            adaptive,
        ));
    }
}

/// Decoding the first `k` scanlines restores the first `k` rows of pixels.
#[verifier::rlimit(30)]
proof fn lemma_unfilter_rows(pixels: Seq<u8>, stride: int, rows: int, k: int, adaptive: bool)
    requires
        stride >= 0,
        0 <= k <= rows,
        pixels.len() == rows * stride,
    ensures
        k * stride <= pixels.len(),
        unfilter(scanlines(pixels, stride, rows, adaptive), stride, k) == pixels.take(k * stride),
    decreases k,
{
    lemma_mul_inequality(k, rows, stride);
    if k > 0 {
        let raw = scanlines(pixels, stride, rows, adaptive);
        let r = k - 1;
        lemma_unfilter_rows(pixels, stride, rows, r, adaptive);
        lemma_scanlines_prefix(pixels, stride, k, rows, adaptive);
        lemma_scanlines_len(pixels, stride, r, adaptive);
        lemma_mul_inequality(r, rows, stride);
        assert(k * stride == r * stride + stride) by (nonlinear_arith)
            requires
                r == k - 1,
        ;
        assert(k * (stride + 1) == r * (stride + 1) + stride + 1) by (nonlinear_arith)
            requires
                r == k - 1,
        ;
        assert((r + 1) * (stride + 1) == k * (stride + 1));
        assert((r + 1) * stride == k * stride);
        lemma_best_filter_len(
            row_of(pixels, stride, r),
            if r == 0 {
                None
            } else {
                Some(row_of(pixels, stride, r - 1))
            },
        );
        assert(0 <= r * stride) by (nonlinear_arith)
            requires
                r >= 0,
                stride >= 0,
        ;
        let prefix = scanlines(pixels, stride, k, adaptive);
        let row = row_of(pixels, stride, r);
        assert(row.len() == stride);
        let prev_spec: Option<Seq<u8>> = if r == 0 {
            None
        } else {
            Some(row_of(pixels, stride, r - 1))
        };
        let enc = if adaptive {
            best_filter(row, prev_spec)
        } else {
            seq![0u8] + row
        };
        assert(prefix == scanlines(pixels, stride, r, adaptive) + enc);
        let line = raw.subrange(r * (stride + 1), k * (stride + 1));
        assert(line =~= prefix.subrange(r * (stride + 1), k * (stride + 1)));
        assert(prefix.subrange(r * (stride + 1), k * (stride + 1)) =~= enc);
        let before = unfilter(raw, stride, r);
        assert(before == pixels.take(r * stride));
        let prev = if r == 0 {
            None
        } else {
            Some(before.subrange((r - 1) * stride, r * stride))
        };
        if r > 0 {
            assert(r * stride == (r - 1) * stride + stride) by (nonlinear_arith);
            lemma_mul_inequality(r - 1, r, stride);
            assert(0 <= (r - 1) * stride) by (nonlinear_arith)
                requires
                    r >= 1,
                    stride >= 0,
            ;
            assert(before.subrange((r - 1) * stride, r * stride) =~= row_of(pixels, stride, r - 1));
        }
        assert(prev == prev_spec);
        if adaptive {
            if let Some(p) = prev_spec {
                assert(p.len() == stride);
            }
            lemma_unfilter_best(row, prev_spec);
            assert(enc.len() == stride + 1);
        } else {
            assert(enc[0] == 0);
            assert(enc.subrange(1, stride + 1) =~= row);
        }
        assert(unfilter(raw, stride, k) == before + unfilter_row(
            line[0],
            line.subrange(1, stride + 1),
            prev,
        ));
        assert(row == pixels.subrange(r * stride, k * stride));
        assert(pixels.take(k * stride) =~= pixels.take(r * stride) + pixels.subrange(
            r * stride,
            k * stride,
        ));
    }
}

/// The scanlines of an image decode back to its pixels, with or without
/// adaptive filtering.
pub proof fn lemma_scanlines_roundtrip(pixels: Seq<u8>, stride: int, rows: int, adaptive: bool)
    requires
        stride >= 0,
        rows >= 0,
        pixels.len() == rows * stride,
    ensures
        unfilter(scanlines(pixels, stride, rows, adaptive), stride, rows) == pixels,
{
    lemma_unfilter_rows(pixels, stride, rows, rows, adaptive);
    assert(pixels.take(rows * stride) =~= pixels);
}

} // verus!

//! What cropping and copying do, pixel by pixel.

use crate::raster::{blit_spec, crop_spec, splice};
use vstd::prelude::*;

verus! {

/// The sample of channel `c` of the pixel at (`x`, `y`) in an image that is
/// `width` pixels wide.
pub open spec fn sample_at(data: Seq<u8>, width: int, x: int, y: int, c: int) -> u8 {
    data[(y * width + x) * 4 + c]
}

/// Rows of `w` pixels: a later row starts behind an earlier one.
pub proof fn lemma_rows_ordered(a: int, b: int, w: int)
    requires
        0 <= a <= b,
        0 <= w,
    ensures
        0 <= a * w <= b * w,
        (a + 1) * w == a * w + w,
{
    assert(0 <= a * w <= b * w) by (nonlinear_arith)
        requires
            0 <= a <= b,
            0 <= w,
    ;
    assert((a + 1) * w == a * w + w) by (nonlinear_arith);
}

/// A crop has four samples for each of its pixels, and its pixel at
/// (`x`, `y`) is the pixel at (`x`, `y`) of the image it was cut from.
pub proof fn lemma_crop_by_pixel(
    src: Seq<u8>,
    src_width: int,
    width: int,
    rows: int,
    x: int,
    y: int,
    c: int,
)
    requires
        0 <= width <= src_width,
        0 <= rows,
        rows * src_width * 4 <= src.len(),
        0 <= x < width,
        0 <= y < rows,
        0 <= c < 4,
    ensures
        crop_spec(src, src_width, width, rows).len() == rows * width * 4,
        sample_at(crop_spec(src, src_width, width, rows), width, x, y, c) == sample_at(
            src,
            src_width,
            x,
            y,
            c,
        ),
    decreases rows,
{
    lemma_rows_ordered(rows - 1, rows, src_width);
    lemma_crop_len(src, src_width, width, rows - 1);
    lemma_crop_len(src, src_width, width, rows);
    lemma_rows_ordered(rows - 1, rows, width);
    lemma_rows_ordered(y, rows - 1, width);
    if y < rows - 1 {
        lemma_rows_ordered(y + 1, rows - 1, width);
        lemma_crop_by_pixel(src, src_width, width, rows - 1, x, y, c);
    }
}

/// A crop has four samples for each of its pixels.
pub proof fn lemma_crop_len(src: Seq<u8>, src_width: int, width: int, rows: int)
    requires
        0 <= width <= src_width,
        0 <= rows,
        rows * src_width * 4 <= src.len(),
    ensures
        crop_spec(src, src_width, width, rows).len() == rows * width * 4,
    decreases rows,
{
    if rows > 0 {
        lemma_rows_ordered(rows - 1, rows, src_width);
        lemma_rows_ordered(rows - 1, rows, width);
        lemma_crop_len(src, src_width, width, rows - 1);
    }
}

/// Copying rows into an image keeps the number of its samples.
pub proof fn lemma_blit_len(
    dest: Seq<u8>,
    dest_width: int,
    dest_height: int,
    src: Seq<u8>,
    src_width: int,
    x: int,
    y: int,
    rows: int,
)
    requires
        dest.len() == dest_width * dest_height * 4,
        0 <= rows,
        rows * src_width * 4 <= src.len(),
        0 <= x,
        0 <= src_width,
        x + src_width <= dest_width,
        0 <= y,
        y + rows <= dest_height,
    ensures
        blit_spec(dest, dest_width, src, src_width, x, y, rows).len() == dest.len(),
    decreases rows,
{
    if rows > 0 {
        lemma_rows_ordered(rows - 1, rows, src_width);
        lemma_blit_len(dest, dest_width, dest_height, src, src_width, x, y, rows - 1);
        lemma_rows_ordered(y + rows - 1, dest_height - 1, dest_width);
        lemma_rows_ordered(dest_height - 1, dest_height, dest_width);
        assert(dest_width * dest_height == dest_height * dest_width) by (nonlinear_arith);
    }
}

/// After `src` was copied into an image at (`x`, `y`), the pixel at
/// (`px`, `py`) is the one of `src` where `src` covers it, and the one that
/// was there before everywhere else.
pub proof fn lemma_blit_by_pixel(
    dest: Seq<u8>,
    dest_width: int,
    dest_height: int,
    src: Seq<u8>,
    src_width: int,
    x: int,
    y: int,
    rows: int,
    px: int,
    py: int,
    c: int,
)
    requires
        dest.len() == dest_width * dest_height * 4,
        0 <= rows,
        rows * src_width * 4 <= src.len(),
        0 <= x,
        0 <= src_width,
        x + src_width <= dest_width,
        0 <= y,
        y + rows <= dest_height,
        0 <= px < dest_width,
        0 <= py < dest_height,
        0 <= c < 4,
    ensures
        sample_at(blit_spec(dest, dest_width, src, src_width, x, y, rows), dest_width, px, py, c)
            == (if x <= px < x + src_width && y <= py < y + rows {
            sample_at(src, src_width, px - x, py - y, c)
        } else {
            sample_at(dest, dest_width, px, py, c)
        }),
    decreases rows,
{
    if rows > 0 {
        lemma_rows_ordered(rows - 1, rows, src_width);
        lemma_blit_by_pixel(dest, dest_width, dest_height, src, src_width, x, y, rows - 1, px, py, c);
        lemma_blit_len(dest, dest_width, dest_height, src, src_width, x, y, rows - 1);
        lemma_rows_ordered(y + rows - 1, dest_height - 1, dest_width);
        lemma_rows_ordered(dest_height - 1, dest_height, dest_width);
        lemma_rows_ordered(py, dest_height - 1, dest_width);
        assert(dest_width * dest_height == dest_height * dest_width) by (nonlinear_arith);
        let last = y + rows - 1;
        if py < last {
            lemma_rows_ordered(py + 1, last, dest_width);
        } else if py > last {
            lemma_rows_ordered(last + 1, py, dest_width);
        }
        let before = blit_spec(dest, dest_width, src, src_width, x, y, rows - 1);
        let at = (last * dest_width + x) * 4;
        let row = src.subrange((rows - 1) * src_width * 4, rows * src_width * 4);
        let i = (py * dest_width + px) * 4 + c;
        assert(row.len() == src_width * 4);
        assert(0 <= at && at + row.len() <= before.len());
        assert(0 <= i < before.len());
        let after = splice(before, at, row);
        assert(after[i] == (if i < at {
            before[i]
        } else if i < at + row.len() {
            row[i - at]
        } else {
            before[i]
        }));
    }
}

} // verus!

//! Images as plain samples: four bytes per pixel (red, green, blue, alpha),
//! row after row, and the pixel work of masking, cropping and copying.

use vstd::prelude::*;

verus! {

/// An image of `width` by `height` pixels with its samples.
#[derive(Debug, PartialEq, Eq)]
pub struct Image {
    pub width: u32,
    pub height: u32,
    /// Four samples per pixel, the rows from top to bottom.
    pub data: Vec<u8>,
}

/// The mathematical value of an [`Image`].
pub struct ImageView {
    pub width: u32,
    pub height: u32,
    pub data: Seq<u8>,
}

impl View for Image {
    type V = ImageView;

    open spec fn view(&self) -> ImageView {
        ImageView { width: self.width, height: self.height, data: self.data@ }
    }
}

/// The views of a vector of images.
pub open spec fn image_views(v: Seq<Image>) -> Seq<ImageView> {
    Seq::new(v.len(), |i: int| v[i]@)
}

/// Why a sprite could not be masked.
#[derive(Debug, Clone, Copy, PartialEq, Eq, Structural)]
pub enum MaskError {
    /// The mask and the sprite differ in width or height.
    DimensionMismatch,
    /// The sprite has no pixel, so nothing can be resampled.
    EmptyImage,
}

/// A copy would leave the bounds of the image copied into.
#[derive(Debug, Clone, Copy, PartialEq, Eq, Structural)]
pub struct OutOfBounds;

/// The width of a thumbnail.
pub const THUMBNAIL_WIDTH: u32 = 250;

/// The height of a thumbnail.
pub const THUMBNAIL_HEIGHT: u32 = 190;

/// The number of samples of an image of `width` by `height` pixels.
pub open spec fn sample_count(width: int, height: int) -> int {
    width * height * 4
}

/// The samples of `src` with every pixel made fully transparent (all four
/// samples zero) where the first sample of the mask's pixel is zero.
pub open spec fn masked_samples(mask: Seq<u8>, src: Seq<u8>) -> Seq<u8> {
    Seq::new(src.len(), |i: int| if mask[i - i % 4] == 0 { 0u8 } else { src[i] })
}

/// The first `rows` rows of an image `src_width` pixels wide, each cut to its
/// first `width` pixels.
pub open spec fn crop_spec(src: Seq<u8>, src_width: int, width: int, rows: int) -> Seq<u8>
    decreases rows,
{
    if rows <= 0 {
        Seq::empty()
    } else {
        crop_spec(src, src_width, width, rows - 1) + src.subrange(
            (rows - 1) * src_width * 4,
            (rows - 1) * src_width * 4 + width * 4,
        )
    }
}

/// `s` with the samples from `at` on replaced by those of `t`.
pub open spec fn splice(s: Seq<u8>, at: int, t: Seq<u8>) -> Seq<u8> {
    s.subrange(0, at) + t + s.subrange(at + t.len(), s.len() as int)
}

/// `dest`, an image `dest_width` pixels wide, after the first `rows` rows of
/// `src`, an image `src_width` pixels wide, were copied into it with their
/// top-left corner at (`x`, `y`).
pub open spec fn blit_spec(
    dest: Seq<u8>,
    dest_width: int,
    src: Seq<u8>,
    src_width: int,
    x: int,
    y: int,
    rows: int,
) -> Seq<u8>
    decreases rows,
{
    if rows <= 0 {
        dest
    } else {
        splice(
            blit_spec(dest, dest_width, src, src_width, x, y, rows - 1),
            ((y + rows - 1) * dest_width + x) * 4,
            src.subrange((rows - 1) * src_width * 4, rows * src_width * 4),
        )
    }
}

/// What resampling gives: the samples of the image of `new_width` by
/// `new_height` pixels that the Catmull-Rom filter makes of the image of
/// `width` by `height` pixels with the samples `samples`.
pub uninterp spec fn catmull_rom_samples(
    width: u32,
    height: u32,
    samples: Seq<u8>,
    new_width: u32,
    new_height: u32,
) -> Seq<u8>;

/// Row `row` of an image of `w` by `h` pixels lies within its samples.
pub proof fn lemma_row_bounds(w: int, h: int, row: int)
    requires
        0 <= row < h,
        0 <= w,
    ensures
        0 <= row * w * 4,
        row * w * 4 + w * 4 == (row + 1) * w * 4,
        (row + 1) * w * 4 <= w * h * 4,
{
    assert(row * w * 4 + w * 4 == (row + 1) * w * 4) by (nonlinear_arith);
    assert(0 <= row * w * 4) by (nonlinear_arith)
        requires
            0 <= row,
            0 <= w,
    ;
    assert((row + 1) * w * 4 <= w * h * 4) by (nonlinear_arith)
        requires
            0 <= row < h,
            0 <= w,
    ;
}

/// A span of `sw` pixels that starts at column `x` of row `row` lies within
/// the samples of an image of `dw` by `dh` pixels, if it fits in the row.
pub proof fn lemma_span_bounds(dw: int, dh: int, sw: int, x: int, row: int)
    requires
        0 <= row < dh,
        0 <= x,
        0 <= sw,
        x + sw <= dw,
    ensures
        0 <= (row * dw + x) * 4,
        (row * dw + x) * 4 + sw * 4 <= dw * dh * 4,
        ((row + 1) * dw + x) * 4 == (row * dw + x) * 4 + dw * 4,
{
    assert(0 <= row * dw) by (nonlinear_arith)
        requires
            0 <= row,
            0 <= dw,
    ;
    assert((row + 1) * dw <= dw * dh) by (nonlinear_arith)
        requires
            0 <= row < dh,
            0 <= dw,
    ;
    assert((row + 1) * dw == row * dw + dw) by (nonlinear_arith);
}

/// The Catmull-Rom resampling of `imageops::resize` in the `image` crate: the
/// result has the dimensions asked for, four samples per pixel, and the
/// samples that the filter computes from the arguments.
#[verifier::external_body]
fn resample(img: &Image, new_width: u32, new_height: u32) -> (r: Image)
    requires
        img.wf(),
        img.width > 0,
        img.height > 0,
        new_width > 0,
        new_height > 0,
    ensures
        r.width == new_width,
        r.height == new_height,
        r.data@.len() == sample_count(new_width as int, new_height as int),
        r.data@ == catmull_rom_samples(img.width, img.height, img.data@, new_width, new_height),
{
    let buf: image::RgbaImage = image::ImageBuffer::from_raw(
        img.width,
        img.height,
        img.data.clone(),
    ).unwrap();
    let filter = image::imageops::FilterType::CatmullRom;
    let out = image::imageops::resize(&buf, new_width, new_height, filter);
    Image { width: new_width, height: new_height, data: out.into_raw() }
}

impl Image {
    /// The samples are as many as the dimensions say.
    pub open spec fn wf(&self) -> bool {
        self.data@.len() == sample_count(self.width as int, self.height as int)
    }

    /// The image of the given dimensions and samples, if the samples are as
    /// many as the dimensions say.
    pub fn new(width: u32, height: u32, data: Vec<u8>) -> (r: Option<Image>)
        ensures
            r.is_some() == (data@.len() == sample_count(width as int, height as int)),
            r.is_some() ==> r.unwrap().wf() && r.unwrap().width == width && r.unwrap().height
                == height && r.unwrap().data@ == data@,
    {
        assert(width as int * height as int * 4 <= 0xFFFF_FFFF * 0xFFFF_FFFF * 4) by (nonlinear_arith)
            requires
                0 <= width <= 0xFFFF_FFFF,
                0 <= height <= 0xFFFF_FFFF,
        ;
        let want: u128 = (width as u128) * (height as u128) * 4;
        if data.len() as u128 == want {
            Some(Image { width, height, data })
        } else {
            None
        }
    }

    /// Whether the samples are as many as the dimensions say.
    pub fn is_well_formed(&self) -> (r: bool)
        ensures
            r == self.wf(),
    {
        assert(self.width as int * self.height as int * 4 <= 0xFFFF_FFFF * 0xFFFF_FFFF * 4)
            by (nonlinear_arith)
            requires
                0 <= self.width <= 0xFFFF_FFFF,
                0 <= self.height <= 0xFFFF_FFFF,
        ;
        let want: u128 = (self.width as u128) * (self.height as u128) * 4;
        self.data.len() as u128 == want
    }

    /// Cuts the sprite by the mask: where the first sample of the mask's pixel
    /// is zero, the sprite's pixel becomes fully transparent; every other
    /// pixel stays. Images of different dimensions are refused, and the
    /// sprite then stays as it was.
    pub fn apply_mask(&mut self, mask: &Image) -> (r: Result<(), MaskError>)
        requires
            old(self).wf(),
            mask.wf(),
        ensures
            final(self).wf(),
            final(self).width == old(self).width,
            final(self).height == old(self).height,
            r is Err <==> (mask.width != old(self).width || mask.height != old(self).height),
            r is Err ==> r == Err::<(), MaskError>(MaskError::DimensionMismatch) && final(self).data@
                == old(self).data@,
            r is Ok ==> final(self).data@ == masked_samples(mask.data@, old(self).data@),
    {
        if mask.width != self.width || mask.height != self.height {
            return Err(MaskError::DimensionMismatch);
        }
        let len: usize = self.data.len();
        let mut at: usize = 0;
        while at < len
            invariant
                at <= len,
                at % 4 == 0,
                len % 4 == 0,
                len == self.data@.len(),
                len == mask.data@.len(),
                len == old(self).data@.len(),
                self.width == old(self).width,
                self.height == old(self).height,
                forall|i: int|
                    0 <= i < len ==> self.data@[i] == (if i < at {
                        masked_samples(mask.data@, old(self).data@)[i]
                    } else {
                        old(self).data@[i]
                    }),
            decreases len - at,
        {
            if mask.data[at] == 0 {
                self.data.set(at, 0);
                self.data.set(at + 1, 0);
                self.data.set(at + 2, 0);
                self.data.set(at + 3, 0);
            }
            at += 4;
        }
        proof {
            assert(self.data@ =~= masked_samples(mask.data@, old(self).data@));
        }
        Ok(())
    }

    /// The top-left part of the image, `width` by `height` pixels, or as much
    /// of it as the image has.
    pub fn crop(&self, width: u32, height: u32) -> (r: Image)
        requires
            self.wf(),
        ensures
            r.wf(),
            r.width == (if width <= self.width { width } else { self.width }),
            r.height == (if height <= self.height { height } else { self.height }),
            r.data@ == crop_spec(self.data@, self.width as int, r.width as int, r.height as int),
    {
        let w: u32 = if width <= self.width { width } else { self.width };
        let h: u32 = if height <= self.height { height } else { self.height };
        let total: usize = self.data.len();
        let mut data: Vec<u8> = Vec::new();
        let mut row: u32 = 0;
        let mut base: usize = 0;
        while row < h
            invariant
                self.wf(),
                total == self.data@.len(),
                row <= h <= self.height,
                w <= self.width,
                base == row * self.width * 4,
                data@.len() == sample_count(w as int, row as int),
                data@ == crop_spec(self.data@, self.width as int, w as int, row as int),
            decreases h - row,
        {
            proof {
                lemma_row_bounds(self.width as int, self.height as int, row as int);
                lemma_row_bounds(w as int, h as int, row as int);
                assert(w * row * 4 == row * w * 4) by (nonlinear_arith);
                assert(w * (row + 1) * 4 == (row + 1) * w * 4) by (nonlinear_arith);
            }
            let stride: usize = (self.width as usize) * 4;
            let span: usize = (w as usize) * 4;
            let ghost before = data@;
            let mut j: usize = 0;
            while j < span
                invariant
                    j <= span <= stride,
                    total == self.data@.len(),
                    base + stride <= total,
                    data@ == before + self.data@.subrange(base as int, base + j),
                decreases span - j,
            {
                data.push(self.data[base + j]);
                j += 1;
                proof {
                    assert(data@ =~= before + self.data@.subrange(base as int, base + j));
                }
            }
            base = base + stride;
            row += 1;
        }
        proof {
            assert(w * h * 4 == sample_count(w as int, h as int));
        }
        Image { width: w, height: h, data }
    }

    /// Copies `src` into the image with its top-left corner at (`x`, `y`). A
    /// copy that would leave the image's bounds is refused, and the image
    /// then stays as it was.
    pub fn copy_from(&mut self, src: &Image, x: u32, y: u32) -> (r: Result<(), OutOfBounds>)
        requires
            old(self).wf(),
            src.wf(),
        ensures
            final(self).wf(),
            final(self).width == old(self).width,
            final(self).height == old(self).height,
            r is Err <==> (x + src.width > old(self).width || y + src.height > old(self).height),
            r is Err ==> final(self).data@ == old(self).data@,
            r is Ok ==> final(self).data@ == blit_spec(
                old(self).data@,
                old(self).width as int,
                src.data@,
                src.width as int,
                x as int,
                y as int,
                src.height as int,
            ),
    {
        if x as u64 + src.width as u64 > self.width as u64 || y as u64 + src.height as u64
            > self.height as u64 {
            return Err(OutOfBounds);
        }
        if src.height == 0 {
            return Ok(());
        }
        let total: usize = self.data.len();
        let src_total: usize = src.data.len();
        proof {
            lemma_span_bounds(
                self.width as int,
                self.height as int,
                src.width as int,
                x as int,
                y as int,
            );
            lemma_row_bounds(self.width as int, self.height as int, y as int);
        }
        let stride: usize = (self.width as usize) * 4;
        let span: usize = (src.width as usize) * 4;
        let mut to: usize = ((y as usize) * (self.width as usize) + (x as usize)) * 4;
        let mut from: usize = 0;
        let mut row: u32 = 0;
        while row < src.height
            invariant
                self.wf(),
                src.wf(),
                self.width == old(self).width,
                self.height == old(self).height,
                self.data@.len() == old(self).data@.len(),
                total == self.data@.len(),
                src_total == src.data@.len(),
                row <= src.height,
                x + src.width <= self.width,
                y + src.height <= self.height,
                stride == self.width * 4,
                span == src.width * 4,
                row < src.height ==> to == ((y + row) * self.width + x) * 4,
                row < src.height ==> from == row * src.width * 4,
                self.data@ == blit_spec(
                    old(self).data@,
                    old(self).width as int,
                    src.data@,
                    src.width as int,
                    x as int,
                    y as int,
                    row as int,
                ),
            decreases src.height - row,
        {
            proof {
                lemma_span_bounds(
                    self.width as int,
                    self.height as int,
                    src.width as int,
                    x as int,
                    y + row,
                );
                lemma_row_bounds(src.width as int, src.height as int, row as int);
                assert(src.width * src.height * 4 == src.data@.len());
            }
            let ghost before = self.data@;
            let mut j: usize = 0;
            while j < span
                invariant
                    j <= span,
                    total == before.len(),
                    src_total == src.data@.len(),
                    to + span <= total,
                    from + span <= src_total,
                    self.width == old(self).width,
                    self.height == old(self).height,
                    self.data@ == splice(before, to as int, src.data@.subrange(from as int, from + j)),
                decreases span - j,
            {
                self.data.set(to + j, src.data[from + j]);
                j += 1;
                proof {
                    assert(self.data@ =~= splice(
                        before,
                        to as int,
                        src.data@.subrange(from as int, from + j),
                    ));
                }
            }
            row += 1;
            if row < src.height {
                proof {
                    lemma_span_bounds(
                        self.width as int,
                        self.height as int,
                        src.width as int,
                        x as int,
                        y + row,
                    );
                    lemma_row_bounds(src.width as int, src.height as int, row as int);
                }
                to = to + stride;
                from = from + span;
            }
        }
        Ok(())
    }

    /// The thumbnail of the image: 250 by 190 pixels, resampled with the
    /// Catmull-Rom filter. An image without pixels has none.
    pub fn thumbnail(&self) -> (r: Option<Image>)
        requires
            self.wf(),
        ensures
            r.is_some() == (self.width > 0 && self.height > 0),
            r.is_some() ==> r.unwrap().wf() && r.unwrap().width == THUMBNAIL_WIDTH
                && r.unwrap().height == THUMBNAIL_HEIGHT && r.unwrap().data@
                == catmull_rom_samples(
                self.width,
                self.height,
                self.data@,
                THUMBNAIL_WIDTH,
                THUMBNAIL_HEIGHT,
            ),
    {
        if self.width == 0 || self.height == 0 {
            None
        } else {
            Some(resample(self, THUMBNAIL_WIDTH, THUMBNAIL_HEIGHT))
        }
    }
}

/// Applying a mask a second time changes nothing.
pub proof fn lemma_mask_idempotent(mask: Seq<u8>, src: Seq<u8>)
    ensures
        masked_samples(mask, masked_samples(mask, src)) == masked_samples(mask, src),
{
    assert(masked_samples(mask, masked_samples(mask, src)) =~= masked_samples(mask, src));
}

/// Masking touches no pixel whose mask sample is not zero, and leaves zero in
/// all four samples of every pixel whose mask sample is zero.
pub proof fn lemma_mask_by_pixel(mask: Seq<u8>, src: Seq<u8>, pixel: int, channel: int)
    requires
        0 <= pixel,
        0 <= channel < 4,
        pixel * 4 + channel < src.len(),
    ensures
        masked_samples(mask, src)[pixel * 4 + channel] == (if mask[pixel * 4] == 0 {
            0u8
        } else {
            src[pixel * 4 + channel]
        }),
{
}

} // verus!

//! Cropping and resizing of bitmaps.

use vstd::prelude::*;
use crate::bitmap::{Bitmap, bytes_of, lemma_picture_of_bytes, Picture, picture_of};

verus! {

/// The smaller of two integers.
pub open spec fn least(a: int, b: int) -> int {
    if a <= b {
        a
    } else {
        b
    }
}

/// The part of `src` that starts at `(x, y)` and is `w` by `h` pixels, cut down to what
/// lies inside `src`.
pub open spec fn crop_picture(src: Picture, x: int, y: int, w: int, h: int) -> Picture {
    let x0 = least(x, src.width);
    let y0 = least(y, src.height);
    Picture::build(
        least(w, src.width - x0),
        least(h, src.height - y0),
        |i: int, j: int| src.at(x0 + i, y0 + j),
    )
}

/// The bytes that `image::imageops::resize` with the filter `Nearest` returns for
/// the picture held in `data`, `width` by `height` pixels, and the new size.
pub uninterp spec fn resized(data: Seq<u8>, width: u32, height: u32, nwidth: u32, nheight: u32) -> Seq<u8>;

/// `image::imageops::crop_imm` followed by `SubImage::to_image`: the rectangle is
/// cut down to the picture, and the result holds the pixels of the picture inside
/// it, row by row.
#[verifier::external_body]
fn crop_raw(data: &Vec<u8>, width: u32, height: u32, x: u32, y: u32, w: u32, h: u32) -> (r: Vec<u8>)
    requires
        data@.len() == width * height * 4,
    ensures
        r@.len() == crop_picture(
            picture_of(data@, width as int, height as int),
            x as int,
            y as int,
            w as int,
            h as int,
        ).width * crop_picture(
            picture_of(data@, width as int, height as int),
            x as int,
            y as int,
            w as int,
            h as int,
        ).height * 4,
        picture_of(
            r@,
            least(w as int, width - least(x as int, width as int)),
            least(h as int, height - least(y as int, height as int)),
        ) == crop_picture(
            picture_of(data@, width as int, height as int),
            x as int,
            y as int,
            w as int,
            h as int,
        ),
{
    let img = image::RgbaImage::from_raw(width, height, data.clone()).unwrap();
    image::imageops::crop_imm(&img, x, y, w, h).to_image().into_raw()
}

/// `image::imageops::resize` with the filter `Nearest`: the result has the new size,
/// its bytes depend on the arguments alone, and a picture that has the new size
/// already comes back as a copy.
#[verifier::external_body]
fn resize_raw(data: &Vec<u8>, width: u32, height: u32, nwidth: u32, nheight: u32) -> (r: Vec<u8>)
    requires
        data@.len() == width * height * 4,
        width > 0,
        height > 0,
        width * nheight * 16 <= isize::MAX,
        nwidth * nheight * 16 <= isize::MAX,
    ensures
        r@ == resized(data@, width, height, nwidth, nheight),
        r@.len() == nwidth * nheight * 4,
        nwidth == width && nheight == height ==> r@ == data@,
{
    let img = image::RgbaImage::from_raw(width, height, data.clone()).unwrap();
    image::imageops::resize(&img, nwidth, nheight, image::imageops::FilterType::Nearest).into_raw()
}

/// The part of `src` that starts at `(x, y)` and is `w` by `h` pixels, cut down to
/// what lies inside `src`.
pub fn crop(src: &Bitmap, x: u32, y: u32, w: u32, h: u32) -> (r: Bitmap)
    ensures
        r@ == crop_picture(src@, x as int, y as int, w as int, h as int),
        r@.wf(),
        r@.width <= w,
        r@.width <= src@.width,
        r@.height <= h,
        r@.height <= src@.height,
{
    proof {
        src.lemma_view();
        lemma_picture_of_bytes(src@);
    }
    let width = src.width();
    let height = src.height();
    let x0 = if x < width {
        x
    } else {
        width
    };
    let y0 = if y < height {
        y
    } else {
        height
    };
    let cw = if w < width - x0 {
        w
    } else {
        width - x0
    };
    let ch = if h < height - y0 {
        h
    } else {
        height - y0
    };
    let data = crop_raw(src.as_raw(), width, height, x, y, w, h);
    match Bitmap::from_raw(cw, ch, data) {
        Some(r) => r,
        None => Bitmap::new(0, 0),
    }
}

/// The picture resized to `nwidth` by `nheight` pixels, as the resizing of the
/// `image` crate with the filter `Nearest` gives it.
pub open spec fn resize_picture(src: Picture, nwidth: u32, nheight: u32) -> Picture {
    picture_of(
        resized(bytes_of(src), src.width as u32, src.height as u32, nwidth, nheight),
        nwidth as int,
        nheight as int,
    )
}

/// The bitmap resized to `nwidth` by `nheight` pixels.
pub fn resize(src: &Bitmap, nwidth: u32, nheight: u32) -> (r: Bitmap)
    requires
        src@.width > 0,
        src@.height > 0,
        src@.width * nheight * 16 <= isize::MAX,
        nwidth * nheight * 16 <= isize::MAX,
    ensures
        r@ == resize_picture(src@, nwidth, nheight),
        r@.wf(),
        r@.width == nwidth,
        r@.height == nheight,
        nwidth == src@.width && nheight == src@.height ==> r@ == src@,
{
    proof {
        src.lemma_view();
        lemma_picture_of_bytes(src@);
    }
    let data = resize_raw(src.as_raw(), src.width(), src.height(), nwidth, nheight);
    match Bitmap::from_raw(nwidth, nheight, data) {
        Some(r) => r,
        None => Bitmap::new(0, 0),
    }
}

} // verus!

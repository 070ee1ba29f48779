//! Pixel bitmaps.

use vstd::prelude::*;

verus! {

/// A pixel: red, green, blue, alpha.
pub type Rgba = (u8, u8, u8, u8);

/// The transparent black pixel.
pub open spec fn clear_pixel() -> Rgba {
    (0u8, 0u8, 0u8, 0u8)
}

/// A picture as rows of pixels.
pub struct Picture {
    /// Pixels in a row.
    pub width: int,
    /// Number of rows.
    pub height: int,
    /// The rows, from the top.
    pub rows: Seq<Seq<Rgba>>,
}

impl Picture {
    /// The picture has `height` rows of `width` pixels.
    pub open spec fn wf(self) -> bool {
        &&& 0 <= self.width
        &&& 0 <= self.height
        &&& self.rows.len() == self.height
        &&& forall|y: int| 0 <= y < self.height ==> (#[trigger] self.rows[y]).len() == self.width
    }

    /// The pixel in column `x` of row `y`.
    pub open spec fn at(self, x: int, y: int) -> Rgba {
        self.rows[y][x]
    }

    /// The position lies in the picture.
    pub open spec fn holds(self, x: int, y: int) -> bool {
        0 <= x < self.width && 0 <= y < self.height
    }

    /// The picture of the given size whose pixels are given by `f`.
    pub open spec fn build(width: int, height: int, f: spec_fn(int, int) -> Rgba) -> Picture {
        Picture {
            width,
            height,
            rows: Seq::new(height as nat, |y: int| Seq::new(width as nat, |x: int| f(x, y))),
        }
    }
}

/// Two pictures of one size with the same pixels are the same picture.
pub proof fn lemma_picture_equal(a: Picture, b: Picture)
    requires
        a.wf(),
        b.wf(),
        a.width == b.width,
        a.height == b.height,
        forall|x: int, y: int| a.holds(x, y) ==> a.at(x, y) == b.at(x, y),
    ensures
        a == b,
{
    assert forall|y: int| 0 <= y < a.height implies a.rows[y] == b.rows[y] by {
        assert forall|x: int| 0 <= x < a.width implies a.rows[y][x] == b.rows[y][x] by {
            assert(a.holds(x, y));
            assert(a.at(x, y) == b.at(x, y));
        }
        assert(a.rows[y] =~= b.rows[y]);
    }
    assert(a.rows =~= b.rows);
}

/// Where the pixel `(x, y)` starts in the bytes of a picture `width` pixels wide.
pub open spec fn offset(width: int, x: int, y: int) -> int {
    (y * width + x) * 4
}

/// The pixel `(x, y)` in the bytes of a picture `width` pixels wide.
pub open spec fn pixel_in(data: Seq<u8>, width: int, x: int, y: int) -> Rgba {
    let i = offset(width, x, y);
    (data[i], data[i + 1], data[i + 2], data[i + 3])
}

/// The picture that the bytes `data` hold, row by row, four bytes a pixel.
pub open spec fn picture_of(data: Seq<u8>, width: int, height: int) -> Picture {
    Picture::build(width, height, |x: int, y: int| pixel_in(data, width, x, y))
}

/// The bytes of a pixel lie within the bytes of the picture.
pub proof fn lemma_offset_bounds(width: int, height: int, x: int, y: int)
    requires
        0 <= x < width,
        0 <= y < height,
    ensures
        0 <= offset(width, x, y),
        offset(width, x, y) + 4 <= width * height * 4,
        0 <= y * width + x < width * height,
        0 <= y * width <= width * height - width,
{
    assert(0 <= y * width <= (height - 1) * width) by (nonlinear_arith)
        requires
            0 <= y <= height - 1,
            0 <= width,
    ;
    assert((height - 1) * width == width * height - width) by (nonlinear_arith);
}

/// Two pixels do not share a byte.
pub proof fn lemma_offset_distinct(width: int, x: int, y: int, x2: int, y2: int)
    requires
        0 <= x < width,
        0 <= x2 < width,
        0 <= y,
        0 <= y2,
        x != x2 || y != y2,
    ensures
        offset(width, x, y) + 4 <= offset(width, x2, y2) || offset(width, x2, y2) + 4 <= offset(
            width,
            x,
            y,
        ),
{
    if y < y2 {
        assert((y + 1) * width <= y2 * width) by (nonlinear_arith)
            requires
                y + 1 <= y2,
                0 <= width,
        ;
        assert((y + 1) * width == y * width + width) by (nonlinear_arith);
    } else if y2 < y {
        assert((y2 + 1) * width <= y * width) by (nonlinear_arith)
            requires
                y2 + 1 <= y,
                0 <= width,
        ;
        assert((y2 + 1) * width == y2 * width + width) by (nonlinear_arith);
    }
}

/// The channel `c` of a pixel: 0 for red, 1 for green, 2 for blue, else alpha.
pub open spec fn channel(p: Rgba, c: int) -> u8 {
    if c == 0 {
        p.0
    } else if c == 1 {
        p.1
    } else if c == 2 {
        p.2
    } else {
        p.3
    }
}

/// The bytes of a picture: its pixels row by row, four bytes a pixel.
pub open spec fn bytes_of(p: Picture) -> Seq<u8> {
    Seq::new(
        (p.width * p.height * 4) as nat,
        |i: int| channel(p.at((i / 4) % p.width, (i / 4) / p.width), i % 4),
    )
}

/// Bytes that hold a picture are the bytes of that picture.
pub proof fn lemma_bytes_of_picture(data: Seq<u8>, width: int, height: int)
    requires
        0 <= width,
        0 <= height,
        data.len() == width * height * 4,
    ensures
        bytes_of(picture_of(data, width, height)) == data,
{
    let p = picture_of(data, width, height);
    assert forall|i: int| 0 <= i < data.len() implies bytes_of(p)[i] == data[i] by {
        let q = i / 4;
        let c = i % 4;
        assert(width > 0) by (nonlinear_arith)
            requires
                width * height * 4 > 0,
                width >= 0,
                height >= 0,
        ;
        let x = q % width;
        let y = q / width;
        vstd::arithmetic::div_mod::lemma_fundamental_div_mod(q, width);
        assert(width * y == y * width) by (nonlinear_arith);
        assert(q < width * height);
        assert(0 <= y < height) by (nonlinear_arith)
            requires
                y * width + x == q,
                0 <= x < width,
                0 <= q < width * height,
                0 <= height,
        ;
        assert(offset(width, x, y) == 4 * q);
        assert(p.at(x, y) == pixel_in(data, width, x, y));
    }
    assert(bytes_of(p) =~= data);
}

/// The bytes of a picture hold that picture.
pub proof fn lemma_picture_of_bytes(p: Picture)
    requires
        p.wf(),
    ensures
        picture_of(bytes_of(p), p.width, p.height) == p,
        bytes_of(p).len() == p.width * p.height * 4,
{
    let data = bytes_of(p);
    let q = picture_of(data, p.width, p.height);
    assert(0 <= p.width * p.height) by (nonlinear_arith)
        requires
            0 <= p.width,
            0 <= p.height,
    ;
    assert forall|x: int, y: int| q.holds(x, y) implies q.at(x, y) == p.at(x, y) by {
        lemma_offset_bounds(p.width, p.height, x, y);
        let cell = y * p.width + x;
        vstd::arithmetic::div_mod::lemma_fundamental_div_mod_converse(cell, p.width, y, x);
        let o = offset(p.width, x, y);
        assert(o == 4 * cell);
        assert(q.at(x, y) == pixel_in(data, p.width, x, y));
        assert(data[o] == channel(p.at(x, y), 0));
        assert(data[o + 1] == channel(p.at(x, y), 1));
        assert(data[o + 2] == channel(p.at(x, y), 2));
        assert(data[o + 3] == channel(p.at(x, y), 3));
    }
    lemma_picture_equal(q, p);
}

/// A bitmap: `width` by `height` pixels, stored row by row, four bytes a pixel.
#[derive(Debug)]
pub struct Bitmap {
    width: u32,
    height: u32,
    data: Vec<u8>,
}

impl View for Bitmap {
    type V = Picture;

    closed spec fn view(&self) -> Picture {
        picture_of(self.data@, self.width as int, self.height as int)
    }
}

impl Bitmap {
    #[verifier::type_invariant]
    spec fn sized(self) -> bool {
        self.data@.len() == self.width * self.height * 4
    }

    /// The view of a bitmap is a picture of rows of equal length, no larger than `u32`
    /// counts.
    pub proof fn lemma_view(&self)
        ensures
            self@.wf(),
            0 <= self@.width <= u32::MAX,
            0 <= self@.height <= u32::MAX,
    {
    }

    /// A transparent bitmap of the given size.
    pub fn new(width: u32, height: u32) -> (r: Bitmap)
        requires
            width * height * 4 <= usize::MAX,
        ensures
            r@.wf(),
            r@.width == width,
            r@.height == height,
            forall|x: int, y: int| r@.holds(x, y) ==> r@.at(x, y) == clear_pixel(),
    {
        proof {
            assert(0 <= width * height) by (nonlinear_arith)
                requires
                    0 <= width,
                    0 <= height,
            ;
        }
        let size: usize = (width as usize) * (height as usize) * 4;
        let data: Vec<u8> = vec![0u8; size];
        let r = Bitmap { width, height, data };
        proof {
            assert forall|x: int, y: int| r@.holds(x, y) implies r@.at(x, y) == clear_pixel() by {
                lemma_offset_bounds(width as int, height as int, x, y);
            }
        }
        r
    }

    /// The bitmap that holds the bytes `data`, where they are as many as the size
    /// asks for.
    pub fn from_raw(width: u32, height: u32, data: Vec<u8>) -> (r: Option<Bitmap>)
        ensures
            r is Some <==> data@.len() == width * height * 4,
            r is Some ==> r.unwrap()@ == picture_of(data@, width as int, height as int)
                && r.unwrap()@.wf(),
    {
        proof {
            assert(0 <= width * height <= 0xffff_ffff * 0xffff_ffff) by (nonlinear_arith)
                requires
                    0 <= width <= 0xffff_ffff,
                    0 <= height <= 0xffff_ffff,
            ;
        }
        let size: u128 = (width as u128) * (height as u128) * 4;
        if (data.len() as u128) == size {
            Some(Bitmap { width, height, data })
        } else {
            None
        }
    }

    /// The bytes of the bitmap.
    pub fn into_raw(self) -> (data: Vec<u8>)
        ensures
            data@ == bytes_of(self@),
            data@.len() == self@.width * self@.height * 4,
    {
        proof {
            use_type_invariant(&self);
            lemma_bytes_of_picture(self.data@, self.width as int, self.height as int);
        }
        self.data
    }

    /// The bytes of the bitmap.
    pub fn as_raw(&self) -> (data: &Vec<u8>)
        ensures
            data@ == bytes_of(self@),
            data@.len() == self@.width * self@.height * 4,
    {
        proof {
            use_type_invariant(self);
            lemma_bytes_of_picture(self.data@, self.width as int, self.height as int);
        }
        &self.data
    }

    /// Pixels in a row.
    pub fn width(&self) -> (w: u32)
        ensures
            w == self@.width,
    {
        self.width
    }

    /// Number of rows.
    pub fn height(&self) -> (h: u32)
        ensures
            h == self@.height,
    {
        self.height
    }

    /// The pixel in column `x` of row `y`.
    pub fn get_pixel(&self, x: u32, y: u32) -> (p: Rgba)
        requires
            self@.holds(x as int, y as int),
        ensures
            p == self@.at(x as int, y as int),
    {
        proof {
            use_type_invariant(self);
            lemma_offset_bounds(self.width as int, self.height as int, x as int, y as int);
        }
        let size: usize = self.data.len();
        let i: usize = ((y as usize) * (self.width as usize) + (x as usize)) * 4;
        (self.data[i], self.data[i + 1], self.data[i + 2], self.data[i + 3])
    }

    /// Sets the pixel in column `x` of row `y`.
    pub fn put_pixel(&mut self, x: u32, y: u32, p: Rgba)
        requires
            old(self)@.holds(x as int, y as int),
        ensures
            final(self)@.wf(),
            final(self)@.width == old(self)@.width,
            final(self)@.height == old(self)@.height,
            final(self)@.at(x as int, y as int) == p,
            forall|x2: int, y2: int|
                old(self)@.holds(x2, y2) && (x2 != x || y2 != y) ==> final(self)@.at(x2, y2) == old(
                    self,
                )@.at(x2, y2),
    {
        proof {
            use_type_invariant(&*self);
            lemma_offset_bounds(self.width as int, self.height as int, x as int, y as int);
        }
        let ghost before = self.data@;
        let ghost w = self.width as int;
        let ghost h = self.height as int;
        let size: usize = self.data.len();
        let i: usize = ((y as usize) * (self.width as usize) + (x as usize)) * 4;
        self.data[i] = p.0;
        self.data[i + 1] = p.1;
        self.data[i + 2] = p.2;
        self.data[i + 3] = p.3;
        proof {
            assert forall|x2: int, y2: int|
                0 <= x2 < w && 0 <= y2 < h && (x2 != x || y2 != y) implies pixel_in(
                self.data@,
                w,
                x2,
                y2,
            ) == pixel_in(before, w, x2, y2) by {
                lemma_offset_distinct(w, x as int, y as int, x2, y2);
                lemma_offset_bounds(w, h, x2, y2);
            }
        }
    }

    /// A copy of the bitmap.
    pub fn copy(&self) -> (r: Bitmap)
        ensures
            r@ == self@,
    {
        proof {
            use_type_invariant(self);
        }
        let data = self.data.clone();
        assert(data@ =~= self.data@);
        Bitmap { width: self.width, height: self.height, data }
    }
}

impl Clone for Bitmap {
    fn clone(&self) -> (r: Bitmap)
        ensures
            r@ == self@,
    {
        self.copy()
    }
}

} // verus!

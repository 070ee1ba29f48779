//! Glyphs cut from the pages of the atlas, and the cache that keeps them.

use vstd::prelude::*;
use std::collections::HashMap;
use crate::atlas::{crop, crop_picture, resize, resize_picture};
use crate::bitmap::{Bitmap, clear_pixel, lemma_picture_equal, Picture, picture_of};
use crate::define::SPACE_WIDTH;
use crate::text::{chars_of, digit_char, digit_of, push_all, string_of};

verus! {

/// `char::from_u32` of the standard library: the character with the given code, for
/// every code up to 0x10FFFF that is no surrogate.
pub assume_specification[ char::from_u32 ](i: u32) -> (r: Option<char>)
    ensures
        r == (if i <= 0xD7FF || (0xE000 <= i <= 0x10FFFF) {
            Some(i as char)
        } else {
            None::<char>
        }),
;

/// Side of a page of the atlas, in pixels.
pub const PAGE_SIZE: u32 = 512;

/// Width and row distance of a cell of a page.
pub const CELL_SIZE: u32 = 32;

/// Height of a cell, and of every glyph.
pub const CELL_HEIGHT: u32 = 31;

/// Format bit of obfuscated text.
#[allow(non_upper_case_globals)]
pub const FMT_Obfuscated: u32 = 0x100;

/// Format bit of bold text.
#[allow(non_upper_case_globals)]
pub const FMT_Bold: u32 = 0x200;

/// Format bit of italic text.
#[allow(non_upper_case_globals)]
pub const FMT_Italic: u32 = 0x400;

/// Pixels by which a bold glyph is wider.
pub const GLYPH_BOLD_PAD: u32 = 2;

/// The pixels of a glyph or of a canvas.
pub type RgbaMatrix = Bitmap;

/// A glyph: its bitmap, and whether the bitmap carries colours of its own.
#[derive(Debug, Clone)]
pub struct Font {
    /// The pixels of the glyph.
    pub mat: RgbaMatrix,
    /// The glyph has colours of its own and takes none from the format.
    pub colored: bool,
}

/// A glyph as a picture.
pub struct Glyph {
    /// The pixels of the glyph.
    pub picture: Picture,
    /// The glyph has colours of its own.
    pub colored: bool,
}

impl View for Font {
    type V = Glyph;

    open spec fn view(&self) -> Glyph {
        Glyph { picture: self.mat@, colored: self.colored }
    }
}

impl Font {
    /// The glyph with the given pixels.
    pub fn new(mat: Bitmap, colored: bool) -> (r: Font)
        ensures
            r@ == (Glyph { picture: mat@, colored }),
    {
        Font { mat, colored }
    }

    /// Width of the glyph in pixels.
    pub fn width(&self) -> (w: u32)
        ensures
            w == self@.picture.width,
    {
        self.mat.width()
    }

    /// Height of the glyph in pixels.
    pub fn height(&self) -> (h: u32)
        ensures
            h == self@.picture.height,
    {
        self.mat.height()
    }

    /// A copy of the glyph.
    pub fn clone(&self) -> (r: Font)
        ensures
            r@ == self@,
    {
        Font { mat: self.mat.copy(), colored: self.colored }
    }
}

/// Page, row and column of the character with the code `code`.
pub open spec fn cell_of(code: u32) -> (u32, u32, u32) {
    (code / 256, (code % 256) / 16, code % 16)
}

/// The code of the first character of `rune`; 0 for the empty string.
pub open spec fn first_code(rune: Seq<char>) -> u32 {
    if rune.len() == 0 {
        0
    } else {
        rune[0] as u32
    }
}

/// The last unit of the UTF-16 form of the character with the code `code`.
pub open spec fn last_unit(code: u32) -> u32 {
    if code < 0x10000 {
        code
    } else {
        (0xDC00 + (code - 0x10000) % 0x400) as u32
    }
}

/// The character of a cell: the one whose code is the low 16 bits of the cell's
/// number, or a space where that is no character.
pub open spec fn rune_of(group: u32, row: u32, col: u32) -> char {
    let code = ((group * 256 + row * 16 + col) % 0x10000) as u32;
    if code <= 0xD7FF || 0xE000 <= code {
        code as char
    } else {
        ' '
    }
}

/// Every pixel of the picture has equal red, green and blue.
pub open spec fn gray(p: Picture) -> bool {
    forall|x: int, y: int|
        p.holds(x, y) ==> (#[trigger] p.at(x, y)).0 == p.at(x, y).1 && p.at(x, y).1 == p.at(
            x,
            y,
        ).2
}

/// Whether every pixel of the bitmap has equal red, green and blue.
pub fn is_grayscale(img: &Bitmap) -> (r: bool)
    ensures
        r == gray(img@),
{
    let w = img.width();
    let h = img.height();
    let mut y: u32 = 0;
    while y < h
        invariant
            y <= h,
            w == img@.width,
            h == img@.height,
            forall|i: int, j: int|
                0 <= i < w && 0 <= j < y ==> (#[trigger] img@.at(i, j)).0 == img@.at(i, j).1
                    && img@.at(i, j).1 == img@.at(i, j).2,
        decreases h - y,
    {
        let mut x: u32 = 0;
        while x < w
            invariant
                x <= w,
                y < h,
                w == img@.width,
                h == img@.height,
                forall|i: int, j: int|
                    0 <= i < w && 0 <= j < y ==> (#[trigger] img@.at(i, j)).0 == img@.at(i, j).1
                        && img@.at(i, j).1 == img@.at(i, j).2,
                forall|i: int|
                    0 <= i < x ==> (#[trigger] img@.at(i, y as int)).0 == img@.at(i, y as int).1
                        && img@.at(i, y as int).1 == img@.at(i, y as int).2,
            decreases w - x,
        {
            let p = img.get_pixel(x, y);
            if p.0 != p.1 || p.1 != p.2 {
                return false;
            }
            x = x + 1;
        }
        y = y + 1;
    }
    true
}

/// The pixel `(x, y)` of the picture is not fully transparent.
pub open spec fn opaque_at(p: Picture, x: int, y: int) -> bool {
    p.holds(x, y) && p.at(x, y).3 > 0
}

/// Some pixel of column `x` is not fully transparent.
pub open spec fn column_used(p: Picture, x: int) -> bool {
    exists|y: int| opaque_at(p, x, y)
}

/// Some pixel of row `y` is not fully transparent.
pub open spec fn row_used(p: Picture, y: int) -> bool {
    exists|x: int| opaque_at(p, x, y)
}

/// No pixel of the picture is visible.
pub open spec fn blank(p: Picture) -> bool {
    forall|x: int, y: int| !opaque_at(p, x, y)
}

/// `b` is the box of the visible pixels of `p`: its first used column and row, and
/// one past its last used column and row.
pub open spec fn is_bbox(p: Picture, b: (u32, u32, u32, u32)) -> bool {
    &&& column_used(p, b.0 as int)
    &&& column_used(p, b.2 - 1)
    &&& row_used(p, b.1 as int)
    &&& row_used(p, b.3 - 1)
    &&& forall|x: int, y: int| opaque_at(p, x, y) ==> b.0 <= x < b.2 && b.1 <= y < b.3
}

/// The box of the visible pixels of the bitmap; `None` where no pixel is visible.
#[verifier::rlimit(50)]
pub fn get_bbox(img: &Bitmap) -> (r: Option<(u32, u32, u32, u32)>)
    ensures
        r is None <==> blank(img@),
        r is Some ==> is_bbox(img@, r.unwrap()),
{
    let w = img.width();
    let h = img.height();
    let mut min_x: u32 = w;
    let mut min_y: u32 = h;
    let mut max_x: u32 = 0;
    let mut max_y: u32 = 0;
    let mut found = false;
    let ghost mut at_min_x: int = 0;
    let ghost mut at_max_x: int = 0;
    let ghost mut at_min_y: int = 0;
    let ghost mut at_max_y: int = 0;
    let mut y: u32 = 0;
    while y < h
        invariant
            y <= h,
            w == img@.width,
            h == img@.height,
            !found ==> forall|i: int, j: int| 0 <= j < y ==> !opaque_at(img@, i, j),
            found ==> {
                &&& opaque_at(img@, min_x as int, at_min_x)
                &&& opaque_at(img@, max_x as int, at_max_x)
                &&& opaque_at(img@, at_min_y, min_y as int)
                &&& opaque_at(img@, at_max_y, max_y as int)
                &&& forall|i: int, j: int|
                    0 <= j < y && opaque_at(img@, i, j) ==> min_x <= i <= max_x && min_y <= j
                        <= max_y
            },
        decreases h - y,
    {
        let mut x: u32 = 0;
        while x < w
            invariant
                x <= w,
                y < h,
                w == img@.width,
                h == img@.height,
                !found ==> forall|i: int, j: int|
                    (0 <= j < y || (j == y && 0 <= i < x)) ==> !opaque_at(img@, i, j),
                found ==> {
                    &&& opaque_at(img@, min_x as int, at_min_x)
                    &&& opaque_at(img@, max_x as int, at_max_x)
                    &&& opaque_at(img@, at_min_y, min_y as int)
                    &&& opaque_at(img@, at_max_y, max_y as int)
                    &&& forall|i: int, j: int|
                        (0 <= j < y || (j == y && 0 <= i < x)) && opaque_at(img@, i, j) ==> min_x
                            <= i <= max_x && min_y <= j <= max_y
                },
            decreases w - x,
        {
            let p = img.get_pixel(x, y);
            if p.3 > 0 {
                if !found || x < min_x {
                    min_x = x;
                    proof {
                        at_min_x = y as int;
                    }
                }
                if !found || y < min_y {
                    min_y = y;
                    proof {
                        at_min_y = x as int;
                    }
                }
                if !found || x > max_x {
                    max_x = x;
                    proof {
                        at_max_x = y as int;
                    }
                }
                if !found || y > max_y {
                    max_y = y;
                    proof {
                        at_max_y = x as int;
                    }
                }
                found = true;
            }
            x = x + 1;
        }
        y = y + 1;
    }
    if found {
        proof {
            assert(column_used(img@, min_x as int));
            assert(column_used(img@, max_x as int));
            assert(row_used(img@, min_y as int));
            assert(row_used(img@, max_y as int));
        }
        Some((min_x, min_y, max_x + 1, max_y + 1))
    } else {
        None
    }
}

/// `x` is the first used column of the picture.
pub open spec fn is_left_edge(p: Picture, x: int) -> bool {
    column_used(p, x) && forall|i: int| i < x ==> !column_used(p, i)
}

/// `x` is one past the last used column of the picture.
pub open spec fn is_right_edge(p: Picture, x: int) -> bool {
    column_used(p, x - 1) && forall|i: int| i >= x ==> !column_used(p, i)
}

/// The first used column of the picture; 0 where none is used.
pub open spec fn left_edge(p: Picture) -> int {
    if blank(p) {
        0
    } else {
        choose|x: int| is_left_edge(p, x)
    }
}

/// One past the last used column of the picture; the width of a space where none is
/// used.
pub open spec fn right_edge(p: Picture) -> int {
    if blank(p) {
        SPACE_WIDTH as int
    } else {
        choose|x: int| is_right_edge(p, x)
    }
}

/// The cell cut down to its used columns, on its first 31 rows.
pub open spec fn tight_picture(cell: Picture) -> Picture {
    crop_picture(
        cell,
        left_edge(cell),
        0,
        right_edge(cell) - left_edge(cell),
        CELL_HEIGHT as int,
    )
}

/// The cell cut down to the columns between its first and its last visible pixel;
/// an empty cell gives a glyph as wide as a space.
pub fn tight_font(square: &Bitmap) -> (r: Bitmap)
    ensures
        r@ == tight_picture(square@),
        r@.wf(),
        r@.width <= square@.width,
        r@.height <= CELL_HEIGHT,
{
    let bbox = get_bbox(square);
    let (x1, x2) = match bbox {
        Some((x1, _, x2, _)) => {
            proof {
                assert(is_left_edge(square@, x1 as int)) by {
                    assert forall|i: int| i < x1 implies !column_used(square@, i) by {
                        if column_used(square@, i) {
                            let y = choose|y: int| opaque_at(square@, i, y);
                            assert(opaque_at(square@, i, y));
                        }
                    }
                }
                assert(is_right_edge(square@, x2 as int)) by {
                    assert forall|i: int| i >= x2 implies !column_used(square@, i) by {
                        if column_used(square@, i) {
                            let y = choose|y: int| opaque_at(square@, i, y);
                            assert(opaque_at(square@, i, y));
                        }
                    }
                }
                let y1 = choose|y: int| opaque_at(square@, x1 as int, y);
                assert(opaque_at(square@, x1 as int, y1));
            }
            (x1, x2)
        },
        None => (0, SPACE_WIDTH as u32),
    };
    crop(square, x1, 0, x2 - x1, CELL_HEIGHT)
}


/// The picture with every pixel painted in the colour (1, 1, 1), its alpha kept.
pub open spec fn obfuscated_picture(p: Picture) -> Picture {
    Picture::build(p.width, p.height, |x: int, y: int| (1u8, 1u8, 1u8, p.at(x, y).3))
}

/// The picture widened by the bold pad: its own pixels, then its last column once
/// more, then a transparent column.
pub open spec fn bold_picture(p: Picture) -> Picture {
    Picture::build(
        p.width + GLYPH_BOLD_PAD,
        p.height,
        |x: int, y: int|
            if x < p.width {
                p.at(x, y)
            } else if x == p.width && p.width > 0 {
                p.at(p.width - 1, y)
            } else {
                clear_pixel()
            },
    )
}

/// The bitmap with every pixel painted in the colour (1, 1, 1), its alpha kept.
pub fn obfuscate(src: &Bitmap) -> (r: Bitmap)
    ensures
        r@ == obfuscated_picture(src@),
{
    let w = src.width();
    let h = src.height();
    let size: usize = src.as_raw().len();
    let ghost goal = obfuscated_picture(src@);
    let mut out = Bitmap::new(w, h);
    let mut y: u32 = 0;
    while y < h
        invariant
            y <= h,
            w == src@.width,
            h == src@.height,
            goal == obfuscated_picture(src@),
            out@.wf(),
            out@.width == w,
            out@.height == h,
            forall|i: int, j: int| 0 <= i < w && 0 <= j < y ==> out@.at(i, j) == goal.at(i, j),
        decreases h - y,
    {
        let mut x: u32 = 0;
        while x < w
            invariant
                x <= w,
                y < h,
                w == src@.width,
                h == src@.height,
                goal == obfuscated_picture(src@),
                out@.wf(),
                out@.width == w,
                out@.height == h,
                forall|i: int, j: int| 0 <= i < w && 0 <= j < y ==> out@.at(i, j) == goal.at(i, j),
                forall|i: int| 0 <= i < x ==> out@.at(i, y as int) == goal.at(i, y as int),
            decreases w - x,
        {
            let p = src.get_pixel(x, y);
            out.put_pixel(x, y, (1, 1, 1, p.3));
            x = x + 1;
        }
        y = y + 1;
    }
    proof {
        lemma_picture_equal(out@, goal);
    }
    out
}

/// The bitmap widened by the bold pad.
#[verifier::rlimit(50)]
pub fn embolden(src: &Bitmap) -> (r: Bitmap)
    requires
        (src@.width + GLYPH_BOLD_PAD) * src@.height * 4 <= usize::MAX,
        src@.width + GLYPH_BOLD_PAD <= u32::MAX,
    ensures
        r@ == bold_picture(src@),
{
    let w = src.width();
    let h = src.height();
    let wide: u32 = w + GLYPH_BOLD_PAD;
    let ghost goal = bold_picture(src@);
    let mut out = Bitmap::new(wide, h);
    let mut y: u32 = 0;
    while y < h
        invariant
            y <= h,
            w == src@.width,
            h == src@.height,
            wide == w + GLYPH_BOLD_PAD,
            goal == bold_picture(src@),
            out@.wf(),
            out@.width == wide,
            out@.height == h,
            forall|i: int, j: int| 0 <= i < wide && 0 <= j < y ==> out@.at(i, j) == goal.at(i, j),
            forall|i: int, j: int|
                0 <= i < wide && y <= j < h ==> out@.at(i, j) == clear_pixel(),
        decreases h - y,
    {
        let mut x: u32 = 0;
        while x < w
            invariant
                x <= w,
                y < h,
                w == src@.width,
                h == src@.height,
                wide == w + GLYPH_BOLD_PAD,
                goal == bold_picture(src@),
                out@.wf(),
                out@.width == wide,
                out@.height == h,
                forall|i: int, j: int|
                    0 <= i < wide && 0 <= j < y ==> out@.at(i, j) == goal.at(i, j),
                forall|i: int, j: int|
                    0 <= i < wide && y < j < h ==> out@.at(i, j) == clear_pixel(),
                forall|i: int| 0 <= i < x ==> out@.at(i, y as int) == goal.at(i, y as int),
                forall|i: int| w <= i < wide ==> out@.at(i, y as int) == clear_pixel(),
            decreases w - x,
        {
            let p = src.get_pixel(x, y);
            out.put_pixel(x, y, p);
            x = x + 1;
        }
        if w > 0 {
            let p = src.get_pixel(w - 1, y);
            out.put_pixel(w, y, p);
        }
        y = y + 1;
    }
    proof {
        lemma_picture_equal(out@, goal);
    }
    out
}

/// A page of the atlas as the cache keeps it.
#[derive(Debug, Clone)]
pub struct Page {
    /// The pixels of the page, 512 by 512.
    pub image: Bitmap,
    /// Some pixel of the page is not gray.
    pub colored: bool,
    /// The page could be read; the glyphs of a page that could not be are replaced
    /// by the glyph of the space.
    pub readable: bool,
}

/// A page as a picture.
pub struct PageView {
    /// The pixels of the page.
    pub picture: Picture,
    /// Some pixel of the page is not gray.
    pub colored: bool,
    /// The page could be read.
    pub readable: bool,
}

impl View for Page {
    type V = PageView;

    open spec fn view(&self) -> PageView {
        PageView { picture: self.image@, colored: self.colored, readable: self.readable }
    }
}

/// What was found on disk for a page.
#[derive(Debug, Clone)]
pub enum PageFile {
    /// There is no file for the page.
    Missing,
    /// The file could not be read as an image.
    Unreadable,
    /// The image that the file holds.
    Image(Bitmap),
}

/// The cell of the character with the code `code` on a page.
pub open spec fn cell_picture(page: Picture, code: u32) -> Picture {
    crop_picture(
        page,
        cell_of(code).2 * CELL_SIZE,
        cell_of(code).1 * CELL_SIZE,
        CELL_SIZE as int,
        CELL_HEIGHT as int,
    )
}

/// The glyph with the changes that the format asks for: obfuscated first, then bold.
pub open spec fn shaped(base: Picture, fmt: u32) -> Picture {
    let first = if fmt & FMT_Obfuscated != 0 {
        obfuscated_picture(base)
    } else {
        base
    };
    if fmt & FMT_Bold != 0 {
        bold_picture(first)
    } else {
        first
    }
}

/// The glyph of the character with the code `code` on a page: its cell, cut down to
/// its used columns, and shaped by the format unless the page is coloured.
pub open spec fn glyph_on(page: PageView, code: u32, fmt: u32) -> Glyph {
    let tight = tight_picture(cell_picture(page.picture, code));
    if fmt != 0 && !page.colored {
        Glyph { picture: shaped(tight, fmt), colored: page.colored }
    } else {
        Glyph { picture: tight, colored: page.colored }
    }
}

/// The code of the space, whose glyph stands in for the glyphs of unreadable pages.
pub const SPACE_CODE: u32 = 32;

/// The glyph of a character can be made from the pages: its page is there, and where
/// that page could not be read, the page of the space is there and could.
pub open spec fn resolvable(pages: Map<u32, PageView>, code: u32) -> bool {
    &&& pages.contains_key(cell_of(code).0)
    &&& !pages[cell_of(code).0].readable ==> pages.contains_key(0) && pages[0].readable
}

/// The glyph of a character, made from the pages.
pub open spec fn glyph_spec(pages: Map<u32, PageView>, code: u32, fmt: u32) -> Glyph {
    if pages[cell_of(code).0].readable {
        glyph_on(pages[cell_of(code).0], code, fmt)
    } else {
        glyph_on(pages[0], SPACE_CODE, fmt)
    }
}

/// The page that the cache keeps for what was found on disk: a transparent page for
/// no file, the image resized to the size of a page, or a page marked unreadable.
pub open spec fn page_of_file(loaded: PageFile) -> PageView {
    match loaded {
        PageFile::Missing => PageView {
            picture: Picture::build(
                PAGE_SIZE as int,
                PAGE_SIZE as int,
                |x: int, y: int| clear_pixel(),
            ),
            colored: false,
            readable: true,
        },
        PageFile::Unreadable => PageView {
            picture: Picture::build(0, 0, |x: int, y: int| clear_pixel()),
            colored: false,
            readable: false,
        },
        PageFile::Image(image) => PageView {
            picture: resize_picture(image@, PAGE_SIZE, PAGE_SIZE),
            colored: !gray(resize_picture(image@, PAGE_SIZE, PAGE_SIZE)),
            readable: true,
        },
    }
}

/// The image is not empty and small enough to be resized.
pub open spec fn file_fits(loaded: PageFile) -> bool {
    match loaded {
        PageFile::Image(image) => image@.width > 0 && image@.height > 0 && image@.width
            * PAGE_SIZE * 16 <= isize::MAX,
        _ => true,
    }
}

/// What a decoded image gives for a page: the image, where it is not empty, small
/// enough to be resized and holds four bytes for each pixel; else a page that
/// cannot be read.
pub fn page_file_from(width: u32, height: u32, data: Vec<u8>) -> (r: PageFile)
    ensures
        file_fits(r),
        r is Image <==> width > 0 && height > 0 && width * PAGE_SIZE * 16 <= isize::MAX
            && data@.len() == width * height * 4,
        r is Image ==> r->Image_0@ == picture_of(data@, width as int, height as int),
        !(r is Image) ==> r is Unreadable,
{
    if width == 0 || height == 0 {
        return PageFile::Unreadable;
    }
    if (width as u128) * 8192 > isize::MAX as u128 {
        return PageFile::Unreadable;
    }
    match Bitmap::from_raw(width, height, data) {
        Some(image) => PageFile::Image(image),
        None => PageFile::Unreadable,
    }
}

/// The upper-case hexadecimal digit for `d`.
pub open spec fn hex_char(d: int) -> char {
    if d < 10 {
        digit_char(d)
    } else if d == 10 {
        'A'
    } else if d == 11 {
        'B'
    } else if d == 12 {
        'C'
    } else if d == 13 {
        'D'
    } else if d == 14 {
        'E'
    } else {
        'F'
    }
}

/// The upper-case hexadecimal digits of `n`, without leading zeros.
pub open spec fn upper_hex(n: nat) -> Seq<char>
    decreases n,
{
    if n < 16 {
        seq![hex_char(n as int)]
    } else {
        upper_hex(n / 16).push(hex_char((n % 16) as int))
    }
}

/// The path of the file of a page of the atlas in the directory `root`.
pub open spec fn page_path_of(root: Seq<char>, group: u32) -> Seq<char> {
    root + seq!['/', 'g', 'l', 'y', 'p', 'h', '_'] + (if group < 16 {
        seq!['0']
    } else {
        Seq::empty()
    }) + upper_hex(group as nat) + seq!['.', 'p', 'n', 'g']
}

fn hex_digit_of(d: u32) -> (c: char)
    requires
        d < 16,
    ensures
        c == hex_char(d as int),
{
    if d < 10 {
        digit_of(d as usize)
    } else if d == 10 {
        'A'
    } else if d == 11 {
        'B'
    } else if d == 12 {
        'C'
    } else if d == 13 {
        'D'
    } else if d == 14 {
        'E'
    } else {
        'F'
    }
}

fn upper_hex_of(n: u32) -> (v: Vec<char>)
    ensures
        v@ == upper_hex(n as nat),
    decreases n,
{
    if n < 16 {
        let mut v: Vec<char> = Vec::new();
        v.push(hex_digit_of(n));
        v
    } else {
        let mut v = upper_hex_of(n / 16);
        v.push(hex_digit_of(n % 16));
        v
    }
}

/// The key under which the glyph of a character in a format is kept.
pub open spec fn glyph_key(code: u32, fmt: u32) -> u64 {
    (code * 0x1_0000_0000 + fmt) as u64
}

fn key_of(code: u32, fmt: u32) -> (k: u64)
    ensures
        k == glyph_key(code, fmt),
{
    (code as u64) * 0x1_0000_0000 + (fmt as u64)
}

fn code_of(rune: &str) -> (code: u32)
    ensures
        code == first_code(rune@),
{
    if rune.is_empty() {
        0
    } else {
        rune.get_char(0) as u32
    }
}

fn make_glyph(page: &Page, code: u32, fmt: u32) -> (r: Font)
    ensures
        r@ == glyph_on(page@, code, fmt),
{
    let col: u32 = code % 16;
    let row: u32 = (code % 256) / 16;
    let cropped = crop(&page.image, col * CELL_SIZE, row * CELL_SIZE, CELL_SIZE, CELL_HEIGHT);
    let tighted = tight_font(&cropped);
    let mut mat = tighted;
    if fmt != 0 && !page.colored {
        if fmt & FMT_Obfuscated != 0 {
            mat = obfuscate(&mat);
        }
        if fmt & FMT_Bold != 0 {
            proof {
                assert((mat@.width + GLYPH_BOLD_PAD) * mat@.height * 4 <= 34 * 31 * 4)
                    by (nonlinear_arith)
                    requires
                        0 <= mat@.width <= 32,
                        0 <= mat@.height <= 31,
                ;
            }
            mat = embolden(&mat);
        }
    }
    Font::new(mat, page.colored)
}

/// The glyph cache: the pages of the atlas that are loaded, and the glyphs made from
/// them so far.
pub struct RuneFont {
    root_dir: String,
    cached_group: HashMap<u32, Page>,
    cached_rune: HashMap<u64, Font>,
}

impl RuneFont {
    /// The pages that are loaded, by their number.
    pub closed spec fn pages(&self) -> Map<u32, PageView> {
        Map::new(
            |g: u32| self.cached_group@.contains_key(g),
            |g: u32| self.cached_group@[g]@,
        )
    }

    /// The directory of the atlas.
    pub closed spec fn root(&self) -> Seq<char> {
        self.root_dir@
    }

    /// The glyph of the character with the code `code` in the format `fmt` is kept.
    pub closed spec fn keeps(&self, code: u32, fmt: u32) -> bool {
        self.cached_rune@.contains_key(glyph_key(code, fmt))
    }

    /// Every glyph that is kept is the glyph that the pages give.
    pub closed spec fn wf(&self) -> bool {
        forall|code: u32, fmt: u32| #[trigger]
            self.cached_rune@.contains_key(glyph_key(code, fmt)) ==> resolvable(
                self.pages(),
                code,
            ) && self.cached_rune@[glyph_key(code, fmt)]@ == glyph_spec(self.pages(), code, fmt)
    }

    /// An empty cache for the atlas in the directory `root_dir`.
    pub fn new(root_dir: &str) -> (r: RuneFont)
        ensures
            r.wf(),
            r.pages() == Map::<u32, PageView>::empty(),
            r.root() == root_dir@,
            forall|code: u32, fmt: u32| !r.keeps(code, fmt),
    {
        broadcast use vstd::std_specs::hash::group_hash_axioms;

        let r = RuneFont {
            root_dir: String::from_str(root_dir),
            cached_group: HashMap::new(),
            cached_rune: HashMap::new(),
        };
        proof {
            assert(r.pages() =~= Map::<u32, PageView>::empty());
        }
        r
    }

    /// Page, row and column of the first character of `rune`.
    pub fn rune_to_idx(rune: &str) -> (r: (u32, u32, u32))
        ensures
            r == cell_of(first_code(rune@)),
            r.0 <= 0x10FF,
            r.1 < 16,
            r.2 < 16,
    {
        if rune.is_empty() {
            return (0, 0, 0);
        }
        let code: u32 = rune.get_char(0) as u32;
        assert(code >> 8 == code / 256) by (bit_vector);
        assert((code & 0xF0) >> 4 == (code % 256) / 16) by (bit_vector);
        assert(code & 0xF == code % 16) by (bit_vector);
        (code >> 8, (code & 0xF0) >> 4, code & 0xF)
    }

    /// The last unit of the UTF-16 form of `rune`; 0 for the empty string.
    pub fn rune_to_raw_idx(rune: &str) -> (r: u32)
        ensures
            r == (if rune@.len() == 0 {
                0
            } else {
                last_unit(rune@.last() as u32)
            }),
    {
        let n = rune.unicode_len();
        if n == 0 {
            return 0;
        }
        let code: u32 = rune.get_char(n - 1) as u32;
        if code < 0x10000 {
            code
        } else {
            0xDC00 + (code - 0x10000) % 0x400
        }
    }

    /// The character of the cell in row `row` and column `col` of the page `group`.
    pub fn idx_to_rune(group: u32, row: u32, col: u32) -> (s: String)
        requires
            group * 256 + row * 16 + col <= u32::MAX,
        ensures
            s@ == seq![rune_of(group, row, col)],
    {
        let idx: u32 = group * (16 * 16) + row * 16 + col;
        let code: u32 = idx % 0x10000;
        let c: char = match char::from_u32(code) {
            Some(c) => c,
            None => ' ',
        };
        let mut s = String::new();
        s.push(c);
        proof {
            assert(s@ == seq![c]);
        }
        s
    }

    /// The path of the file of the page `group_idx`: in the directory of the atlas,
    /// `glyph_`, the number of the page in upper-case hexadecimal digits, two at
    /// least, and `.png`.
    pub fn page_path(&self, group_idx: u32) -> (s: String)
        ensures
            s@ == page_path_of(self.root(), group_idx),
    {
        let mut chars: Vec<char> = chars_of(self.root_dir.as_str());
        chars.push('/');
        chars.push('g');
        chars.push('l');
        chars.push('y');
        chars.push('p');
        chars.push('h');
        chars.push('_');
        if group_idx < 16 {
            chars.push('0');
        }
        let digits = upper_hex_of(group_idx);
        push_all(&mut chars, &digits);
        chars.push('.');
        chars.push('p');
        chars.push('n');
        chars.push('g');
        proof {
            assert(chars@ == page_path_of(self.root(), group_idx));
        }
        string_of(&chars)
    }

    /// The directory of the atlas.
    pub fn root_dir(&self) -> (s: &str)
        ensures
            s@ == self.root(),
    {
        self.root_dir.as_str()
    }

    /// Whether the page with the number `group_idx` is loaded.
    pub fn has_group(&self, group_idx: u32) -> (r: bool)
        ensures
            r == self.pages().contains_key(group_idx),
    {
        broadcast use vstd::std_specs::hash::group_hash_axioms;

        self.cached_group.contains_key(&group_idx)
    }

    /// Whether the glyph of `c` can be made from the pages that are loaded.
    pub fn can_resolve(&self, c: char) -> (r: bool)
        ensures
            r == resolvable(self.pages(), c as u32),
    {
        broadcast use vstd::std_specs::hash::group_hash_axioms;

        let group: u32 = (c as u32) / 256;
        match self.cached_group.get(&group) {
            Some(page) => {
                if page.readable {
                    true
                } else {
                    match self.cached_group.get(&0) {
                        Some(first) => first.readable,
                        None => false,
                    }
                }
            },
            None => false,
        }
    }

    /// Takes in what was found on disk for the page `group_idx`, unless the page is
    /// loaded already: the page that is loaded first stays.
    #[verifier::rlimit(50)]
    pub fn add_page(&mut self, group_idx: u32, loaded: PageFile)
        requires
            old(self).wf(),
            file_fits(loaded),
        ensures
            final(self).wf(),
            final(self).root() == old(self).root(),
            forall|code: u32, fmt: u32| final(self).keeps(code, fmt) == old(self).keeps(code, fmt),
            old(self).pages().contains_key(group_idx) ==> final(self).pages() == old(self).pages(),
            !old(self).pages().contains_key(group_idx) ==> final(self).pages() == old(
                self,
            ).pages().insert(group_idx, page_of_file(loaded)),
    {
        broadcast use vstd::std_specs::hash::group_hash_axioms;

        if self.cached_group.contains_key(&group_idx) {
            return ;
        }
        let page = match loaded {
            PageFile::Missing => Page {
                image: Bitmap::new(PAGE_SIZE, PAGE_SIZE),
                colored: false,
                readable: true,
            },
            PageFile::Unreadable => Page { image: Bitmap::new(0, 0), colored: false, readable: false },
            PageFile::Image(image) => {
                let resized = resize(&image, PAGE_SIZE, PAGE_SIZE);
                let colored = !is_grayscale(&resized);
                Page { image: resized, colored, readable: true }
            },
        };
        proof {
            page.image.lemma_view();
            lemma_picture_equal(page@.picture, page_of_file(loaded).picture);
            assert(page@ == page_of_file(loaded));
        }
        self.cached_group.insert(group_idx, page);
        proof {
            assert(self.pages() =~= old(self).pages().insert(group_idx, page_of_file(loaded)));
            assert forall|code: u32, fmt: u32| #[trigger]
                self.cached_rune@.contains_key(glyph_key(code, fmt)) implies resolvable(
                self.pages(),
                code,
            ) && self.cached_rune@[glyph_key(code, fmt)]@ == glyph_spec(self.pages(), code, fmt) by {
                assert(resolvable(old(self).pages(), code));
            }
        }
    }

    fn fetch(&mut self, code: u32, fmt: u32) -> (r: Font)
        requires
            old(self).wf(),
            old(self).pages().contains_key(cell_of(code).0),
            old(self).pages()[cell_of(code).0].readable,
        ensures
            final(self).wf(),
            final(self).pages() == old(self).pages(),
            final(self).root() == old(self).root(),
            final(self).keeps(code, fmt),
            forall|c: u32, f: u32| old(self).keeps(c, f) ==> final(self).keeps(c, f),
            r@ == glyph_spec(old(self).pages(), code, fmt),
    {
        broadcast use vstd::std_specs::hash::group_hash_axioms;

        let key = key_of(code, fmt);
        match self.cached_rune.get(&key) {
            Some(cached) => {
                return cached.clone();
            },
            None => {},
        }
        let group: u32 = code / 256;
        let font = match self.cached_group.get(&group) {
            Some(page) => make_glyph(page, code, fmt),
            None => Font::new(Bitmap::new(0, 0), false),
        };
        let kept = font.clone();
        self.cached_rune.insert(key, kept);
        proof {
            assert(self.pages() =~= old(self).pages());
            assert forall|code2: u32, fmt2: u32| #[trigger]
                self.cached_rune@.contains_key(glyph_key(code2, fmt2)) implies resolvable(
                self.pages(),
                code2,
            ) && self.cached_rune@[glyph_key(code2, fmt2)]@ == glyph_spec(
                self.pages(),
                code2,
                fmt2,
            ) by {
                if glyph_key(code2, fmt2) != key {
                    assert(old(self).cached_rune@.contains_key(glyph_key(code2, fmt2)));
                }
            }
        }
        font
    }

    /// The glyph of the character `c` in the format `fmt`, from the cache or made from
    /// the character's page and then kept.
    pub fn get_font_of(&mut self, c: char, fmt: u32) -> (r: Font)
        requires
            old(self).wf(),
            resolvable(old(self).pages(), c as u32),
        ensures
            final(self).wf(),
            final(self).pages() == old(self).pages(),
            final(self).root() == old(self).root(),
            final(self).keeps(c as u32, fmt),
            forall|c2: u32, f: u32| old(self).keeps(c2, f) ==> final(self).keeps(c2, f),
            r@ == glyph_spec(old(self).pages(), c as u32, fmt),
    {
        let mut rune = String::new();
        rune.push(c);
        proof {
            assert(rune@ == seq![c]);
        }
        self.get_font(rune.as_str(), fmt)
    }

    /// The glyph of the first character of `rune` in the format `fmt`, from the cache
    /// or made from the character's page and then kept; no glyph ever leaves the
    /// cache. For the empty string it is the glyph of the character 0; for a
    /// character whose page could not be read, the glyph of the space.
    pub fn get_font(&mut self, rune: &str, fmt: u32) -> (r: Font)
        requires
            old(self).wf(),
            resolvable(old(self).pages(), first_code(rune@)),
        ensures
            final(self).wf(),
            final(self).pages() == old(self).pages(),
            final(self).root() == old(self).root(),
            final(self).keeps(first_code(rune@), fmt),
            forall|c: u32, f: u32| old(self).keeps(c, f) ==> final(self).keeps(c, f),
            r@ == glyph_spec(old(self).pages(), first_code(rune@), fmt),
    {
        broadcast use vstd::std_specs::hash::group_hash_axioms;

        let code = code_of(rune);
        let group: u32 = code / 256;
        let readable = match self.cached_group.get(&group) {
            Some(page) => page.readable,
            None => false,
        };
        if readable {
            return self.fetch(code, fmt);
        }
        let key = key_of(code, fmt);
        match self.cached_rune.get(&key) {
            Some(cached) => {
                return cached.clone();
            },
            None => {},
        }
        let font = self.fetch(SPACE_CODE, fmt);
        let kept = font.clone();
        let ghost middle = *self;
        self.cached_rune.insert(key, kept);
        proof {
            assert(self.pages() =~= old(self).pages());
            assert forall|code2: u32, fmt2: u32| #[trigger]
                self.cached_rune@.contains_key(glyph_key(code2, fmt2)) implies resolvable(
                self.pages(),
                code2,
            ) && self.cached_rune@[glyph_key(code2, fmt2)]@ == glyph_spec(
                self.pages(),
                code2,
                fmt2,
            ) by {
                if glyph_key(code2, fmt2) != key {
                    assert(middle.cached_rune@.contains_key(glyph_key(code2, fmt2)));
                }
            }
        }
        font
    }
}

/// Whoever makes glyphs.
pub trait FontMaker {
    /// The glyph of `rune` in the format `fmt` can be made.
    spec fn can_make(&self, rune: Seq<char>, fmt: u32) -> bool;

    /// The glyph of `rune` in the format `fmt`.
    spec fn glyph(&self, rune: Seq<char>, fmt: u32) -> Glyph;

    /// The glyph of the first character of `rune` in the format `fmt`.
    fn get_font(&mut self, rune: &str, fmt: u32) -> (r: Font)
        requires
            old(self).can_make(rune@, fmt),
        ensures
            r@ == old(self).glyph(rune@, fmt),
    ;
}

impl FontMaker for RuneFont {
    open spec fn can_make(&self, rune: Seq<char>, fmt: u32) -> bool {
        self.wf() && resolvable(self.pages(), first_code(rune))
    }

    open spec fn glyph(&self, rune: Seq<char>, fmt: u32) -> Glyph {
        glyph_spec(self.pages(), first_code(rune), fmt)
    }

    fn get_font(&mut self, rune: &str, fmt: u32) -> (r: Font) {
        RuneFont::get_font(self, rune, fmt)
    }
}

} // verus!

//! The compositor: marked-up text to pixels.

use vstd::prelude::*;
use std::collections::HashMap;
use crate::align::SENTINEL;
use crate::bitmap::{Bitmap, clear_pixel, lemma_picture_equal, Picture, Rgba};
use crate::define::CHAR_HORIZON_PADDING;
use crate::atlas::{crop, crop_picture};
use crate::define::{GLYPH_HEIGHT, ITALIC_CHAR_HORIZON_PADDING};
use crate::font::{
    cell_of, file_fits, glyph_spec, page_of_file, resolvable, Font, Glyph, PageFile, PageView,
    RuneFont,
};
use crate::text::chars_of;

pub use crate::font::{FMT_Bold, FMT_Italic, FMT_Obfuscated};

verus! {

/// The colour of text without a colour code.
pub open spec fn white() -> Rgba {
    (255u8, 255u8, 255u8, 255u8)
}

/// The colour that the table gives the colour code `code` at first.
pub open spec fn default_color(code: u32) -> Option<Rgba> {
    if code == 48 {
        Some((0u8, 0u8, 0u8, 255u8))
    } else if code == 49 {
        Some((0u8, 0u8, 170u8, 255u8))
    } else if code == 50 {
        Some((0u8, 170u8, 0u8, 255u8))
    } else if code == 51 {
        Some((0u8, 170u8, 170u8, 255u8))
    } else if code == 52 {
        Some((170u8, 0u8, 0u8, 255u8))
    } else if code == 53 {
        Some((170u8, 0u8, 170u8, 255u8))
    } else if code == 54 {
        Some((255u8, 170u8, 0u8, 255u8))
    } else if code == 55 {
        Some((170u8, 170u8, 170u8, 255u8))
    } else if code == 56 {
        Some((85u8, 85u8, 85u8, 255u8))
    } else if code == 57 {
        Some((85u8, 85u8, 255u8, 255u8))
    } else if code == 97 {
        Some((85u8, 255u8, 85u8, 255u8))
    } else if code == 98 {
        Some((85u8, 255u8, 255u8, 255u8))
    } else if code == 99 {
        Some((255u8, 85u8, 85u8, 255u8))
    } else if code == 100 {
        Some((255u8, 85u8, 255u8, 255u8))
    } else if code == 101 {
        Some((255u8, 255u8, 85u8, 255u8))
    } else if code == 102 {
        Some((255u8, 255u8, 255u8, 255u8))
    } else if code == 103 {
        Some((221u8, 214u8, 5u8, 255u8))
    } else if code == 104 {
        Some((222u8, 214u8, 5u8, 255u8))
    } else if code == 105 {
        Some((227u8, 212u8, 209u8, 255u8))
    } else if code == 106 {
        Some((68u8, 58u8, 59u8, 255u8))
    } else if code == 109 {
        Some((151u8, 22u8, 7u8, 255u8))
    } else if code == 110 {
        Some((180u8, 104u8, 77u8, 255u8))
    } else if code == 112 {
        Some((222u8, 177u8, 45u8, 255u8))
    } else if code == 113 {
        Some((17u8, 160u8, 54u8, 255u8))
    } else if code == 115 {
        Some((44u8, 186u8, 168u8, 255u8))
    } else if code == 116 {
        Some((33u8, 73u8, 123u8, 255u8))
    } else if code == 117 {
        Some((154u8, 92u8, 198u8, 255u8))
    } else if code == 118 {
        Some((235u8, 114u8, 20u8, 255u8))
    } else {
        None
    }
}

/// The table holds the colours of `default_color` and no other.
pub open spec fn is_default_table(table: Map<u32, Rgba>) -> bool {
    forall|code: u32|
        (#[trigger] table.contains_key(code) <==> default_color(code) is Some) && (
        table.contains_key(code) ==> table[code] == default_color(code).unwrap())
}

/// What the compositor can be set to.
#[derive(Debug, Clone)]
pub struct SimulateOptions {
    /// Gap between two neighbouring glyphs.
    pub font_horizon_padding: i32,
    /// Gap between two lines.
    pub line_padding: i32,
    /// The colour of each colour code, by the code of its character.
    pub color_mapping: HashMap<u32, Rgba>,
}

impl Default for SimulateOptions {
    fn default() -> (r: Self)
        ensures
            r.font_horizon_padding == CHAR_HORIZON_PADDING,
            r.line_padding == 6,
            is_default_table(r.color_mapping@),
    {
        broadcast use vstd::std_specs::hash::group_hash_axioms;

        let mut color_mapping: HashMap<u32, Rgba> = HashMap::new();
        color_mapping.insert(48, (0, 0, 0, 255));
        color_mapping.insert(49, (0, 0, 170, 255));
        color_mapping.insert(50, (0, 170, 0, 255));
        color_mapping.insert(51, (0, 170, 170, 255));
        color_mapping.insert(52, (170, 0, 0, 255));
        color_mapping.insert(53, (170, 0, 170, 255));
        color_mapping.insert(54, (255, 170, 0, 255));
        color_mapping.insert(55, (170, 170, 170, 255));
        color_mapping.insert(56, (85, 85, 85, 255));
        color_mapping.insert(57, (85, 85, 255, 255));
        color_mapping.insert(97, (85, 255, 85, 255));
        color_mapping.insert(98, (85, 255, 255, 255));
        color_mapping.insert(99, (255, 85, 85, 255));
        color_mapping.insert(100, (255, 85, 255, 255));
        color_mapping.insert(101, (255, 255, 85, 255));
        color_mapping.insert(102, (255, 255, 255, 255));
        color_mapping.insert(103, (221, 214, 5, 255));
        color_mapping.insert(104, (222, 214, 5, 255));
        color_mapping.insert(105, (227, 212, 209, 255));
        color_mapping.insert(106, (68, 58, 59, 255));
        color_mapping.insert(109, (151, 22, 7, 255));
        color_mapping.insert(110, (180, 104, 77, 255));
        color_mapping.insert(112, (222, 177, 45, 255));
        color_mapping.insert(113, (17, 160, 54, 255));
        color_mapping.insert(115, (44, 186, 168, 255));
        color_mapping.insert(116, (33, 73, 123, 255));
        color_mapping.insert(117, (154, 92, 198, 255));
        color_mapping.insert(118, (235, 114, 20, 255));
        SimulateOptions { font_horizon_padding: CHAR_HORIZON_PADDING, line_padding: 6, color_mapping }
    }
}

/// The colour in which a format draws: that of its colour code where the table has
/// it, white else.
pub open spec fn color_of(table: Map<u32, Rgba>, fmt: u32) -> Rgba {
    if fmt & 0x7F != 0 && table.contains_key(fmt & 0x7F) {
        table[fmt & 0x7F]
    } else {
        white()
    }
}

/// The colour in which the format `fmt` draws.
pub fn get_color(options: &SimulateOptions, fmt: u32) -> (color: Rgba)
    ensures
        color == color_of(options.color_mapping@, fmt),
{
    broadcast use vstd::std_specs::hash::group_hash_axioms;

    let code: u32 = fmt & 0x7F;
    if code != 0 {
        match options.color_mapping.get(&code) {
            Some(c) => {
                return *c;
            },
            None => {},
        }
    }
    (255, 255, 255, 255)
}

/// A character of colour: a digit, or a letter from `a` to `u`.
pub open spec fn is_color_letter(ch: char) -> bool {
    ('0' <= ch && ch <= '9') || ('a' <= ch && ch <= 'u')
}

/// The format after the marker letter `ch`, where the letter is one: reset clears
/// the format, bold, italic and obfuscated set their bit, and a colour letter
/// takes the place of the low seven bits.
pub open spec fn format_after(fmt: u32, ch: char) -> u32 {
    if ch == 'r' {
        0
    } else if ch == 'l' {
        fmt | FMT_Bold
    } else if ch == 'o' {
        fmt | FMT_Italic
    } else if ch == 'k' {
        fmt | FMT_Obfuscated
    } else {
        (fmt & 0xFF80) | (ch as u32)
    }
}

/// The letter after the sentinel makes a marker.
pub open spec fn is_marker_letter(ch: char) -> bool {
    ch == 'r' || ch == 'l' || ch == 'o' || ch == 'k' || is_color_letter(ch)
}

/// What the tokenizer holds after some characters.
pub struct TokenScan {
    /// The lines that are closed.
    pub lines: Seq<Seq<(char, u32)>>,
    /// The line in the making.
    pub current: Seq<(char, u32)>,
    /// The format at hand; it lasts over the end of a line.
    pub fmt: u32,
    /// The last character was a sentinel that opens a marker.
    pub pending: bool,
}

/// One step of the tokenizer. A newline closes the line and drops a sentinel that
/// waits. A sentinel opens a marker; after it a marker letter changes the format,
/// and every other character, a second sentinel too, is text in the format at
/// hand.
pub open spec fn token_step(st: TokenScan, ch: char) -> TokenScan {
    if ch == '\n' {
        TokenScan {
            lines: st.lines.push(st.current),
            current: Seq::empty(),
            fmt: st.fmt,
            pending: false,
        }
    } else if ch == SENTINEL && !st.pending {
        TokenScan { lines: st.lines, current: st.current, fmt: st.fmt, pending: true }
    } else if st.pending && ch != SENTINEL && is_marker_letter(ch) {
        TokenScan {
            lines: st.lines,
            current: st.current,
            fmt: format_after(st.fmt, ch),
            pending: false,
        }
    } else {
        TokenScan {
            lines: st.lines,
            current: st.current.push((ch, st.fmt)),
            fmt: st.fmt,
            pending: false,
        }
    }
}

/// The tokenizer on a whole text.
pub open spec fn token_scan(s: Seq<char>) -> TokenScan
    decreases s.len(),
{
    if s.len() == 0 {
        TokenScan { lines: Seq::empty(), current: Seq::empty(), fmt: 0, pending: false }
    } else {
        token_step(token_scan(s.drop_last()), s.last())
    }
}

/// The lines of a text, each as its characters with their formats.
pub open spec fn tokens_of(s: Seq<char>) -> Seq<Seq<(char, u32)>> {
    token_scan(s).lines.push(token_scan(s).current)
}

/// The two lists hold the characters and the formats of the tokens, line by line.
pub open spec fn lists_hold(
    texts: Seq<Vec<char>>,
    fmts: Seq<Vec<u32>>,
    tokens: Seq<Seq<(char, u32)>>,
) -> bool {
    &&& texts.len() == tokens.len()
    &&& fmts.len() == tokens.len()
    &&& forall|i: int|
        0 <= i < tokens.len() ==> line_holds((#[trigger] texts[i])@, fmts[i]@, tokens[i])
}

/// The two lists hold the characters and the formats of the tokens of one line.
pub open spec fn line_holds(text: Seq<char>, fmt: Seq<u32>, tokens: Seq<(char, u32)>) -> bool {
    &&& text.len() == tokens.len()
    &&& fmt.len() == tokens.len()
    &&& forall|j: int| 0 <= j < tokens.len() ==> (text[j], fmt[j]) == #[trigger] tokens[j]
}

fn is_color(ch: char) -> (r: bool)
    ensures
        r == is_color_letter(ch),
{
    ('0' <= ch && ch <= '9') || ('a' <= ch && ch <= 'u')
}

/// Splits marked-up text into its lines, and each line into its characters and the
/// format of each.
pub fn split_format_and_text(mix: &str) -> (r: (Vec<Vec<char>>, Vec<Vec<u32>>))
    ensures
        lists_hold(r.0@, r.1@, tokens_of(mix@)),
{
    let chars = chars_of(mix);
    let mut current_fmt: u32 = 0;
    let mut out_text: Vec<Vec<char>> = Vec::new();
    let mut out_fmt: Vec<Vec<u32>> = Vec::new();
    let mut text: Vec<char> = Vec::new();
    let mut fmt: Vec<u32> = Vec::new();
    let mut is_fmt = false;
    let mut i: usize = 0;
    proof {
        assert(chars@.take(0) == Seq::<char>::empty());
    }
    while i < chars.len()
        invariant
            i <= chars@.len(),
            chars@ == mix@,
            token_scan(chars@.take(i as int)).fmt == current_fmt,
            token_scan(chars@.take(i as int)).pending == is_fmt,
            lists_hold(out_text@, out_fmt@, token_scan(chars@.take(i as int)).lines),
            line_holds(text@, fmt@, token_scan(chars@.take(i as int)).current),
        decreases chars@.len() - i,
    {
        proof {
            assert(chars@.take(i + 1).drop_last() == chars@.take(i as int));
            assert(chars@.take(i + 1).last() == chars@[i as int]);
        }
        let ch = chars[i];
        if ch == '\n' {
            out_text.push(text);
            out_fmt.push(fmt);
            text = Vec::new();
            fmt = Vec::new();
            is_fmt = false;
        } else if ch == SENTINEL {
            if is_fmt {
                text.push(ch);
                fmt.push(current_fmt);
                is_fmt = false;
            } else {
                is_fmt = true;
            }
        } else if is_fmt {
            if ch == 'r' {
                current_fmt = 0;
            } else if ch == 'l' {
                current_fmt = current_fmt | FMT_Bold;
            } else if ch == 'o' {
                current_fmt = current_fmt | FMT_Italic;
            } else if ch == 'k' {
                current_fmt = current_fmt | FMT_Obfuscated;
            } else if is_color(ch) {
                current_fmt = (current_fmt & 0xFF80) | (ch as u32);
            } else {
                text.push(ch);
                fmt.push(current_fmt);
            }
            is_fmt = false;
        } else {
            text.push(ch);
            fmt.push(current_fmt);
        }
        i = i + 1;
    }
    proof {
        assert(chars@.take(chars@.len() as int) == chars@);
    }
    out_text.push(text);
    out_fmt.push(fmt);
    (out_text, out_fmt)
}


/// A channel of a colour scaled by the coverage `alpha`.
pub open spec fn scaled(c: u8, alpha: u8) -> u8 {
    ((c * alpha) / 255) as u8
}

/// A colour scaled by the coverage `alpha`.
pub open spec fn tinted(color: Rgba, alpha: u8) -> Rgba {
    (scaled(color.0, alpha), scaled(color.1, alpha), scaled(color.2, alpha), scaled(color.3, alpha))
}

/// The pixel that a glyph puts on the canvas: its own where the glyph is coloured,
/// else the colour scaled by the alpha of the glyph's pixel.
pub open spec fn glyph_pixel(glyph: Glyph, color: Rgba, x: int, y: int) -> Rgba {
    if glyph.colored {
        glyph.picture.at(x, y)
    } else {
        tinted(color, glyph.picture.at(x, y).3)
    }
}

/// The canvas with the glyph drawn at `(x0, y0)`: inside the glyph's rectangle the
/// glyph's pixels take the place of the canvas.
pub open spec fn drawn(canvas: Picture, glyph: Glyph, x0: int, y0: int, color: Rgba) -> Picture {
    Picture::build(
        canvas.width,
        canvas.height,
        |x: int, y: int|
            if x0 <= x < x0 + glyph.picture.width && y0 <= y < y0 + glyph.picture.height {
                glyph_pixel(glyph, color, x - x0, y - y0)
            } else {
                canvas.at(x, y)
            },
    )
}

fn scale(c: u8, alpha: u8) -> (r: u8)
    ensures
        r == scaled(c, alpha),
{
    assert((c as int) * (alpha as int) <= 255 * 255) by (nonlinear_arith)
        requires
            0 <= c <= 255,
            0 <= alpha <= 255,
    ;
    let product: u32 = (c as u32) * (alpha as u32);
    (product / 255) as u8
}

/// Draws a glyph on the canvas with its top left corner at `pos`. A coloured glyph
/// is copied; of any other the alpha says how much of `color` each pixel gets.
#[verifier::rlimit(50)]
pub fn draw(canvas: &mut Bitmap, patch: &Font, pos: (i32, i32), color: Rgba)
    requires
        pos.0 >= 0,
        pos.1 >= 0,
    ensures
        final(canvas)@ == drawn(old(canvas)@, patch@, pos.0 as int, pos.1 as int, color),
        final(canvas)@.wf(),
{
    let h: u32 = patch.height();
    let w: u32 = patch.width();
    let cw: u32 = canvas.width();
    let ch: u32 = canvas.height();
    let x0: i64 = pos.0 as i64;
    let y0: i64 = pos.1 as i64;
    let ghost start = canvas@;
    let ghost glyph = patch@;
    let ghost goal = drawn(start, glyph, x0 as int, y0 as int, color);
    proof {
        canvas.lemma_view();
        patch.mat.lemma_view();
    }
    let mut y: u32 = 0;
    while y < h
        invariant
            y <= h,
            w == glyph.picture.width,
            h == glyph.picture.height,
            glyph == patch@,
            patch@.picture.wf(),
            cw == start.width,
            ch == start.height,
            0 <= x0 <= i32::MAX,
            0 <= y0 <= i32::MAX,
            canvas@.wf(),
            canvas@.width == cw,
            canvas@.height == ch,
            goal == drawn(start, glyph, x0 as int, y0 as int, color),
            forall|i: int, j: int|
                0 <= i < cw && 0 <= j < ch ==> canvas@.at(i, j) == (if j < y0 + y {
                    goal.at(i, j)
                } else {
                    start.at(i, j)
                }),
        decreases h - y,
    {
        let mut x: u32 = 0;
        while x < w
            invariant
                x <= w,
                y < h,
                w == glyph.picture.width,
                h == glyph.picture.height,
                glyph == patch@,
                patch@.picture.wf(),
                cw == start.width,
                ch == start.height,
                0 <= x0 <= i32::MAX,
                0 <= y0 <= i32::MAX,
                canvas@.wf(),
                canvas@.width == cw,
                canvas@.height == ch,
                goal == drawn(start, glyph, x0 as int, y0 as int, color),
                forall|i: int, j: int|
                    0 <= i < cw && 0 <= j < ch ==> canvas@.at(i, j) == (if j < y0 + y || (j == y0
                        + y && i < x0 + x) {
                        goal.at(i, j)
                    } else {
                        start.at(i, j)
                    }),
            decreases w - x,
        {
            if y0 + (y as i64) < ch as i64 && x0 + (x as i64) < cw as i64 {
                let pixel = patch.mat.get_pixel(x, y);
                let shown: Rgba = if patch.colored {
                    pixel
                } else {
                    (
                        scale(color.0, pixel.3),
                        scale(color.1, pixel.3),
                        scale(color.2, pixel.3),
                        scale(color.3, pixel.3),
                    )
                };
                canvas.put_pixel((x0 + x as i64) as u32, (y0 + y as i64) as u32, shown);
            }
            x = x + 1;
        }
        y = y + 1;
    }
    proof {
        lemma_picture_equal(canvas@, goal);
    }
}

/// `n` is the least count from 0 whose odd double squared reaches `12 * y * y`: it is
/// `y` times the square root of 3, less a half, rounded up.
pub open spec fn is_slant_root(y: int, n: int) -> bool {
    &&& n >= 0
    &&& (2 * n + 1) * (2 * n + 1) >= 12 * y * y
    &&& n == 0 || (2 * n - 1) * (2 * n - 1) < 12 * y * y
}

/// The shift of row `y` of an italic strip: `y` times the tangent of 15 degrees,
/// which is 2 less the square root of 3, rounded to the nearest integer.
pub open spec fn slant(y: int) -> int {
    2 * y - choose|n: int| is_slant_root(y, n)
}

/// `r` is the square root of `3 * h * h`, rounded down.
pub open spec fn is_lean_root(h: int, r: int) -> bool {
    r >= 0 && r * r <= 3 * h * h < (r + 1) * (r + 1)
}

/// By how much a strip of `h` rows gets wider when it is sheared: `h` times the
/// tangent of 15 degrees, rounded up.
pub open spec fn lean(h: int) -> int {
    2 * h - choose|r: int| is_lean_root(h, r)
}

/// A row has one slant root.
pub proof fn lemma_slant_root_unique(y: int, n1: int, n2: int)
    requires
        is_slant_root(y, n1),
        is_slant_root(y, n2),
    ensures
        n1 == n2,
{
    if n1 < n2 {
        assert((2 * n1 + 1) * (2 * n1 + 1) <= (2 * n2 - 1) * (2 * n2 - 1)) by (nonlinear_arith)
            requires
                0 <= 2 * n1 + 1 <= 2 * n2 - 1,
        ;
    } else if n2 < n1 {
        assert((2 * n2 + 1) * (2 * n2 + 1) <= (2 * n1 - 1) * (2 * n1 - 1)) by (nonlinear_arith)
            requires
                0 <= 2 * n2 + 1 <= 2 * n1 - 1,
        ;
    }
}

/// A height has one lean root.
pub proof fn lemma_lean_root_unique(h: int, r1: int, r2: int)
    requires
        is_lean_root(h, r1),
        is_lean_root(h, r2),
    ensures
        r1 == r2,
{
    if r1 < r2 {
        assert((r1 + 1) * (r1 + 1) <= r2 * r2) by (nonlinear_arith)
            requires
                0 <= r1 + 1 <= r2,
        ;
    } else if r2 < r1 {
        assert((r2 + 1) * (r2 + 1) <= r1 * r1) by (nonlinear_arith)
            requires
                0 <= r2 + 1 <= r1,
        ;
    }
}

fn square(v: u128) -> (r: u128)
    requires
        v <= 0x100_0000_0000,
    ensures
        r == v * v,
        r <= 0x1_0000_0000_0000_0000_0000,
{
    assert(v * v <= 0x100_0000_0000 * 0x100_0000_0000) by (nonlinear_arith)
        requires
            0 <= v <= 0x100_0000_0000,
    ;
    v * v
}

/// The shift of row `y` of an italic strip.
pub fn slant_of(y: u32) -> (s: u32)
    ensures
        s == slant(y as int),
        is_slant_root(y as int, 2 * y - s),
        0 <= s <= y,
{
    let wide: u128 = y as u128;
    let target: u128 = 12 * square(wide);
    let mut n: u128 = 0;
    while square(2 * n + 1) < target
        invariant
            wide == y,
            target == 12 * (wide * wide),
            0 <= n <= 2 * wide,
            n == 0 || (2 * n - 1) * (2 * n - 1) < target,
        decreases 2 * wide - n,
    {
        proof {
            if n == 2 * wide {
                assert((4 * wide + 1) * (4 * wide + 1) >= 12 * (wide * wide)) by (nonlinear_arith)
                    requires
                        wide >= 0,
                ;
            }
            assert(2 * (n + 1) - 1 == 2 * n + 1);
        }
        n = n + 1;
    }
    proof {
        assert(12 * (wide * wide) == 12 * y * y) by (nonlinear_arith)
            requires
                wide == y,
        ;
        assert(is_slant_root(y as int, n as int));
        let chosen = choose|k: int| is_slant_root(y as int, k);
        lemma_slant_root_unique(y as int, n as int, chosen);
        if n < wide {
            assert((2 * n + 1) * (2 * n + 1) <= (2 * wide - 1) * (2 * wide - 1)) by (nonlinear_arith)
                requires
                    0 <= 2 * n + 1 <= 2 * wide - 1,
            ;
            assert((2 * wide - 1) * (2 * wide - 1) < 12 * (wide * wide)) by (nonlinear_arith)
                requires
                    wide >= 1,
            ;
        }
    }
    (2 * wide - n) as u32
}

/// By how much a strip of `h` rows gets wider when it is sheared.
pub fn lean_of(h: u32) -> (s: u32)
    ensures
        s == lean(h as int),
        is_lean_root(h as int, 2 * h - s),
        0 <= s <= h,
        h <= 31 ==> s <= 9,
{
    let wide: u128 = h as u128;
    let target: u128 = 3 * square(wide);
    let mut r: u128 = 0;
    while square(r + 1) <= target
        invariant
            wide == h,
            target == 3 * (wide * wide),
            0 <= r <= 2 * wide,
            r * r <= target,
        decreases 2 * wide - r,
    {
        proof {
            if r == 2 * wide {
                assert((2 * wide + 1) * (2 * wide + 1) > 3 * (wide * wide)) by (nonlinear_arith)
                    requires
                        wide >= 0,
                ;
            }
        }
        r = r + 1;
    }
    proof {
        assert(3 * (wide * wide) == 3 * h * h) by (nonlinear_arith)
            requires
                wide == h,
        ;
        assert(is_lean_root(h as int, r as int));
        let chosen = choose|k: int| is_lean_root(h as int, k);
        lemma_lean_root_unique(h as int, r as int, chosen);
        if r < wide {
            assert((r + 1) * (r + 1) <= wide * wide) by (nonlinear_arith)
                requires
                    0 <= r + 1 <= wide,
            ;
        }
        if h <= 31 {
            if 2 * wide - r > 9 {
                assert((r + 1) * (r + 1) <= (2 * wide - 9) * (2 * wide - 9)) by (nonlinear_arith)
                    requires
                        0 <= r + 1 <= 2 * wide - 9,
                ;
                assert((2 * wide - 9) * (2 * wide - 9) <= 3 * (wide * wide)) by (nonlinear_arith)
                    requires
                        5 <= wide <= 31,
                ;
            }
        }
    }
    (2 * wide - r) as u32
}

/// The strip sheared for italics: it is wider by the lean of its height, and each
/// row is taken from the strip shifted by its slant.
pub open spec fn sheared(p: Picture) -> Picture {
    Picture::build(
        p.width + lean(p.height),
        p.height,
        |x: int, y: int|
            if 0 <= x - lean(p.height) + slant(y) < p.width {
                p.at(x - lean(p.height) + slant(y), y)
            } else {
                clear_pixel()
            },
    )
}

/// Shears a strip for italics by 15 degrees.
#[verifier::rlimit(50)]
pub fn shear_image(img: &Bitmap) -> (r: Bitmap)
    requires
        img@.width + img@.height <= u32::MAX,
        (img@.width + img@.height) * img@.height * 4 <= usize::MAX,
    ensures
        r@ == sheared(img@),
        r@.wf(),
        r@.height == img@.height,
{
    let h: u32 = img.height();
    let w: u32 = img.width();
    let offset: u32 = lean_of(h);
    let new_w: u32 = w + offset;
    let ghost goal = sheared(img@);
    proof {
        assert((w + offset) * h * 4 <= (w + h) * h * 4) by (nonlinear_arith)
            requires
                0 <= offset <= h,
                0 <= w,
        ;
    }
    let mut out = Bitmap::new(new_w, h);
    proof {
        img.lemma_view();
    }
    let mut y: u32 = 0;
    while y < h
        invariant
            y <= h,
            w == img@.width,
            h == img@.height,
            offset == lean(h as int),
            new_w == w + offset,
            goal == sheared(img@),
            out@.wf(),
            out@.width == new_w,
            out@.height == h,
            forall|i: int, j: int| 0 <= i < new_w && 0 <= j < y ==> out@.at(i, j) == goal.at(i, j),
            forall|i: int, j: int|
                0 <= i < new_w && y <= j < h ==> out@.at(i, j) == clear_pixel(),
        decreases h - y,
    {
        let shift: u32 = slant_of(y);
        let mut x_new: u32 = 0;
        while x_new < new_w
            invariant
                x_new <= new_w,
                y < h,
                w == img@.width,
                h == img@.height,
                offset == lean(h as int),
                new_w == w + offset,
                shift == slant(y as int),
                goal == sheared(img@),
                out@.wf(),
                out@.width == new_w,
                out@.height == h,
                forall|i: int, j: int|
                    0 <= i < new_w && 0 <= j < y ==> out@.at(i, j) == goal.at(i, j),
                forall|i: int, j: int|
                    0 <= i < new_w && y < j < h ==> out@.at(i, j) == clear_pixel(),
                forall|i: int| 0 <= i < x_new ==> out@.at(i, y as int) == goal.at(i, y as int),
                forall|i: int| x_new <= i < new_w ==> out@.at(i, y as int) == clear_pixel(),
            decreases new_w - x_new,
        {
            let x: i64 = x_new as i64 - offset as i64 + shift as i64;
            if x >= 0 && x < w as i64 {
                let pixel = img.get_pixel(x as u32, y);
                out.put_pixel(x_new, y, pixel);
            }
            x_new = x_new + 1;
        }
        y = y + 1;
    }
    proof {
        lemma_picture_equal(out@, goal);
    }
    out
}

/// The italic form of a strip.
pub fn italic(mat: &Bitmap) -> (r: Bitmap)
    requires
        mat@.width + mat@.height <= u32::MAX,
        (mat@.width + mat@.height) * mat@.height * 4 <= usize::MAX,
    ensures
        r@ == sheared(mat@),
        r@.wf(),
        r@.height == mat@.height,
{
    shear_image(mat)
}

/// The canvas with the first rows of the strip, as many as a glyph has, pasted at
/// `(x0, y0)`, as far as they fall on the canvas.
pub open spec fn pasted(canvas: Picture, strip: Picture, x0: int, y0: int) -> Picture {
    Picture::build(
        canvas.width,
        canvas.height,
        |x: int, y: int|
            if x0 <= x < x0 + strip.width && y0 <= y < y0 + GLYPH_HEIGHT {
                strip.at(x - x0, y - y0)
            } else {
                canvas.at(x, y)
            },
    )
}

/// Pastes the first rows of the strip, as many as a glyph has, on the canvas at
/// `(x0, y0)`.
#[verifier::rlimit(50)]
pub fn paste(canvas: &mut Bitmap, strip: &Bitmap, x0: u32, y0: u32)
    requires
        strip@.height >= GLYPH_HEIGHT,
    ensures
        final(canvas)@ == pasted(old(canvas)@, strip@, x0 as int, y0 as int),
        final(canvas)@.wf(),
{
    let w: u32 = strip.width();
    let cw: u32 = canvas.width();
    let ch: u32 = canvas.height();
    let ghost start = canvas@;
    let ghost goal = pasted(start, strip@, x0 as int, y0 as int);
    proof {
        canvas.lemma_view();
        strip.lemma_view();
    }
    let mut y: u32 = 0;
    while y < GLYPH_HEIGHT
        invariant
            y <= GLYPH_HEIGHT,
            w == strip@.width,
            strip@.height >= GLYPH_HEIGHT,
            strip@.wf(),
            cw == start.width,
            ch == start.height,
            canvas@.wf(),
            canvas@.width == cw,
            canvas@.height == ch,
            goal == pasted(start, strip@, x0 as int, y0 as int),
            forall|i: int, j: int|
                0 <= i < cw && 0 <= j < ch ==> canvas@.at(i, j) == (if j < y0 + y {
                    goal.at(i, j)
                } else {
                    start.at(i, j)
                }),
        decreases GLYPH_HEIGHT - y,
    {
        let mut x: u32 = 0;
        while x < w
            invariant
                x <= w,
                y < GLYPH_HEIGHT,
                w == strip@.width,
                strip@.height >= GLYPH_HEIGHT,
                strip@.wf(),
                cw == start.width,
                ch == start.height,
                canvas@.wf(),
                canvas@.width == cw,
                canvas@.height == ch,
                goal == pasted(start, strip@, x0 as int, y0 as int),
                forall|i: int, j: int|
                    0 <= i < cw && 0 <= j < ch ==> canvas@.at(i, j) == (if j < y0 + y || (j == y0
                        + y && i < x0 + x) {
                        goal.at(i, j)
                    } else {
                        start.at(i, j)
                    }),
            decreases w - x,
        {
            if (x0 as u64) + (x as u64) < cw as u64 && (y0 as u64) + (y as u64) < ch as u64 {
                let pixel = strip.get_pixel(x, y);
                canvas.put_pixel(x0 + x, y0 + y, pixel);
            }
            x = x + 1;
        }
        y = y + 1;
    }
    proof {
        lemma_picture_equal(canvas@, goal);
    }
}


/// The characters of a line with their formats.
pub open spec fn zipped(text: Seq<char>, fmt: Seq<u32>) -> Seq<(char, u32)> {
    Seq::new(text.len(), |j: int| (text[j], fmt[j]))
}

/// The format of a glyph in the cache: the format of its token without the colour.
pub open spec fn cache_format(fmt: u32) -> u32 {
    fmt & 0xFF80
}

/// The glyph of a token.
pub open spec fn token_glyph(pages: Map<u32, PageView>, tok: (char, u32)) -> Glyph {
    glyph_spec(pages, tok.0 as u32, cache_format(tok.1))
}

/// The widths of the glyphs of the first `n` tokens, summed up.
pub open spec fn glyph_sum(pages: Map<u32, PageView>, line: Seq<(char, u32)>, n: int) -> int
    decreases n,
{
    if n <= 0 {
        0
    } else {
        glyph_sum(pages, line, n - 1) + token_glyph(pages, line[n - 1]).picture.width
    }
}

/// The pixel width of a line: its glyphs, the gaps between them, and the italic pad
/// where its last token is italic.
pub open spec fn tokens_width(pages: Map<u32, PageView>, padding: int, line: Seq<(char, u32)>) -> int {
    glyph_sum(pages, line, line.len() as int) + (if line.len() > 0 && line.last().1 & FMT_Italic
        != 0 {
        ITALIC_CHAR_HORIZON_PADDING as int
    } else {
        0
    }) + (if line.len() > 1 {
        (line.len() - 1) * padding
    } else {
        0
    })
}

/// The width of the widest of the first `n` lines.
pub open spec fn widest(
    pages: Map<u32, PageView>,
    padding: int,
    lines: Seq<Seq<(char, u32)>>,
    n: int,
) -> int
    decreases n,
{
    if n <= 0 {
        0
    } else {
        let before = widest(pages, padding, lines, n - 1);
        let here = tokens_width(pages, padding, lines[n - 1]);
        if here > before {
            here
        } else {
            before
        }
    }
}

/// The height of a canvas for `n` lines.
pub open spec fn canvas_height(n: int, line_gap: int) -> int {
    n * GLYPH_HEIGHT + (n - 1) * line_gap
}

/// The pen on its way along a line.
pub struct Pen {
    /// The canvas so far.
    pub canvas: Picture,
    /// Where the next glyph goes.
    pub x: int,
    /// Where the italic run at hand began; -1 where there is none.
    pub italic_from: int,
}

/// The larger of two integers.
pub open spec fn greater(a: int, b: int) -> int {
    if a >= b {
        a
    } else {
        b
    }
}

/// The pen after the token `i` of the line: the glyph is drawn, and where an italic
/// run ends with it, the strip of the run is sheared and pasted back, four pixels to
/// the left.
pub open spec fn pen_step(
    pages: Map<u32, PageView>,
    table: Map<u32, Rgba>,
    padding: int,
    y0: int,
    line: Seq<(char, u32)>,
    i: int,
    pen: Pen,
) -> Pen {
    let glyph = token_glyph(pages, line[i]);
    let canvas = drawn(pen.canvas, glyph, pen.x, y0, color_of(table, line[i].1));
    let from = if line[i].1 & FMT_Italic != 0 && pen.italic_from == -1 {
        pen.x
    } else {
        pen.italic_from
    };
    let end = pen.x + glyph.picture.width;
    if from == -1 || (i != line.len() - 1 && line[i + 1].1 & FMT_Italic != 0) {
        Pen { canvas, x: end + padding, italic_from: from }
    } else {
        let region = crop_picture(canvas, from, y0, end - from, GLYPH_HEIGHT as int);
        Pen {
            canvas: pasted(canvas, sheared(region), greater(from - 4, 0), y0),
            x: end + padding,
            italic_from: -1,
        }
    }
}

/// The pen after the first `n` tokens of the line.
pub open spec fn pen_after(
    pages: Map<u32, PageView>,
    table: Map<u32, Rgba>,
    padding: int,
    y0: int,
    line: Seq<(char, u32)>,
    n: int,
    canvas: Picture,
) -> Pen
    decreases n,
{
    if n <= 0 {
        Pen { canvas, x: 0, italic_from: -1 }
    } else {
        pen_step(
            pages,
            table,
            padding,
            y0,
            line,
            n - 1,
            pen_after(pages, table, padding, y0, line, n - 1, canvas),
        )
    }
}

/// The canvas after the first `n` lines are drawn, each below the one before.
pub open spec fn lines_drawn(
    pages: Map<u32, PageView>,
    table: Map<u32, Rgba>,
    padding: int,
    line_gap: int,
    lines: Seq<Seq<(char, u32)>>,
    n: int,
    canvas: Picture,
) -> Picture
    decreases n,
{
    if n <= 0 {
        canvas
    } else {
        pen_after(
            pages,
            table,
            padding,
            (n - 1) * (GLYPH_HEIGHT + line_gap),
            lines[n - 1],
            lines[n - 1].len() as int,
            lines_drawn(pages, table, padding, line_gap, lines, n - 1, canvas),
        ).canvas
    }
}

/// The transparent picture of the given size.
pub open spec fn blank_canvas(width: int, height: int) -> Picture {
    Picture::build(width, height, |x: int, y: int| clear_pixel())
}

/// The picture of a text: a canvas as wide as its widest line and as high as its
/// lines, with every line drawn.
pub open spec fn rendered(
    pages: Map<u32, PageView>,
    table: Map<u32, Rgba>,
    padding: int,
    line_gap: int,
    text: Seq<char>,
) -> Picture {
    let lines = tokens_of(text);
    lines_drawn(
        pages,
        table,
        padding,
        line_gap,
        lines,
        lines.len() as int,
        blank_canvas(
            widest(pages, padding, lines, lines.len() as int),
            canvas_height(lines.len() as int, line_gap),
        ),
    )
}

/// The glyph of every token of the line can be made.
pub open spec fn line_resolvable(pages: Map<u32, PageView>, line: Seq<(char, u32)>) -> bool {
    forall|j: int| 0 <= j < line.len() ==> resolvable(pages, (#[trigger] line[j]).0 as u32)
}

/// The text can be drawn from the pages: every glyph can be made, no line is wider
/// than `i32` holds, and the canvas fits into memory.
pub open spec fn drawable(
    pages: Map<u32, PageView>,
    padding: int,
    line_gap: int,
    text: Seq<char>,
) -> bool {
    let lines = tokens_of(text);
    &&& padding >= 0
    &&& line_gap >= 0
    &&& forall|i: int| 0 <= i < lines.len() ==> line_resolvable(pages, #[trigger] lines[i])
    &&& forall|i: int|
        0 <= i < lines.len() ==> tokens_width(pages, padding, #[trigger] lines[i]) <= i32::MAX
    &&& canvas_height(lines.len() as int, line_gap) <= i32::MAX
    &&& (widest(pages, padding, lines, lines.len() as int) + GLYPH_HEIGHT) * canvas_height(
        lines.len() as int,
        line_gap,
    ) * 4 <= usize::MAX
}

/// The sum of the glyph widths grows with the number of tokens.
pub proof fn lemma_glyph_sum_grows(
    pages: Map<u32, PageView>,
    line: Seq<(char, u32)>,
    i: int,
    n: int,
)
    requires
        0 <= i <= n,
        forall|j: int| 0 <= j < n ==> token_glyph(pages, #[trigger] line[j]).picture.width >= 0,
    ensures
        0 <= glyph_sum(pages, line, i) <= glyph_sum(pages, line, n),
    decreases n,
{
    if i < n {
        lemma_glyph_sum_grows(pages, line, i, n - 1);
        assert(token_glyph(pages, line[n - 1]).picture.width >= 0);
    } else if n > 0 {
        lemma_glyph_sum_grows(pages, line, n - 1, n - 1);
        assert(token_glyph(pages, line[n - 1]).picture.width >= 0);
    }
}

/// The widest line has a width of 0 at least.
pub proof fn lemma_widest_nonnegative(
    pages: Map<u32, PageView>,
    padding: int,
    lines: Seq<Seq<(char, u32)>>,
    n: int,
)
    ensures
        0 <= widest(pages, padding, lines, n),
    decreases n,
{
    if n > 0 {
        lemma_widest_nonnegative(pages, padding, lines, n - 1);
    }
}

/// No line is wider than the widest.
pub proof fn lemma_widest_bounds(
    pages: Map<u32, PageView>,
    padding: int,
    lines: Seq<Seq<(char, u32)>>,
    i: int,
    n: int,
)
    requires
        0 <= i < n <= lines.len(),
    ensures
        tokens_width(pages, padding, lines[i]) <= widest(pages, padding, lines, n),
    decreases n,
{
    if i < n - 1 {
        lemma_widest_bounds(pages, padding, lines, i, n - 1);
    }
}

/// The compositor: a glyph cache and the options of the drawing.
pub struct TellRawSimulator {
    font: RuneFont,
    options: SimulateOptions,
}

impl TellRawSimulator {
    /// The pages that the glyph cache has loaded.
    pub closed spec fn pages(&self) -> Map<u32, PageView> {
        self.font.pages()
    }

    /// The colours of the drawing.
    pub closed spec fn colors(&self) -> Map<u32, Rgba> {
        self.options.color_mapping@
    }

    /// The gap between two glyphs.
    pub closed spec fn padding(&self) -> int {
        self.options.font_horizon_padding as int
    }

    /// The gap between two lines.
    pub closed spec fn line_gap(&self) -> int {
        self.options.line_padding as int
    }

    /// The glyph cache is sound.
    pub closed spec fn wf(&self) -> bool {
        self.font.wf()
    }

    /// A compositor over the given glyph cache.
    pub fn new(font: RuneFont, options: SimulateOptions) -> (r: TellRawSimulator)
        requires
            font.wf(),
        ensures
            r.wf(),
            r.pages() == font.pages(),
            r.colors() == options.color_mapping@,
            r.padding() == options.font_horizon_padding,
            r.line_gap() == options.line_padding,
    {
        TellRawSimulator { font, options }
    }

    /// Whether the page with the number `group_idx` is loaded.
    pub fn has_group(&self, group_idx: u32) -> (r: bool)
        ensures
            r == self.pages().contains_key(group_idx),
    {
        self.font.has_group(group_idx)
    }

    /// Takes in what was found on disk for the page `group_idx`, unless the page is
    /// loaded already.
    pub fn add_page(&mut self, group_idx: u32, loaded: PageFile)
        requires
            old(self).wf(),
            file_fits(loaded),
        ensures
            final(self).wf(),
            final(self).colors() == old(self).colors(),
            final(self).padding() == old(self).padding(),
            final(self).line_gap() == old(self).line_gap(),
            old(self).pages().contains_key(group_idx) ==> final(self).pages() == old(self).pages(),
            !old(self).pages().contains_key(group_idx) ==> final(self).pages() == old(
                self,
            ).pages().insert(group_idx, page_of_file(loaded)),
    {
        self.font.add_page(group_idx, loaded);
    }

    /// The glyph cache.
    pub fn font(&self) -> (font: &RuneFont)
        ensures
            font.pages() == self.pages(),
            font.wf() == self.wf(),
    {
        &self.font
    }

    /// The pixel width of a line of tokens, however wide. The glyphs of the line are
    /// made on the way, so that each is known to have a width.
    pub fn measure_line(&mut self, line: &Vec<char>, fmt: &Vec<u32>) -> (w: i128)
        requires
            old(self).wf(),
            line@.len() == fmt@.len(),
            line_resolvable(old(self).pages(), zipped(line@, fmt@)),
        ensures
            final(self).wf(),
            final(self).pages() == old(self).pages(),
            final(self).colors() == old(self).colors(),
            final(self).padding() == old(self).padding(),
            final(self).line_gap() == old(self).line_gap(),
            w == tokens_width(old(self).pages(), old(self).padding(), zipped(line@, fmt@)),
            widths_known(old(self).pages(), zipped(line@, fmt@)),
            old(self).padding() >= 0 ==> w >= 0,
    {
        let ghost pages = self.pages();
        let ghost toks = zipped(line@, fmt@);
        let ghost padding = self.padding();
        let n: usize = line.len();
        let mut total: i128 = 0;
        let mut last_fmt: u32 = 0;
        let mut i: usize = 0;
        while i < n
            invariant
                i <= n,
                n == line@.len(),
                n == fmt@.len(),
                toks == zipped(line@, fmt@),
                self.wf(),
                self.pages() == pages,
                self.options == old(self).options,
                line_resolvable(pages, toks),
                total == glyph_sum(pages, toks, i as int),
                0 <= total <= i * 0xffff_ffff,
                forall|j: int|
                    0 <= j < i ==> token_glyph(pages, #[trigger] toks[j]).picture.width >= 0,
                i > 0 ==> last_fmt == toks[i - 1].1,
                i == 0 ==> last_fmt == 0,
            decreases n - i,
        {
            let f: u32 = fmt[i];
            let c: char = line[i];
            proof {
                assert(toks[i as int] == (c, f));
                assert(resolvable(pages, toks[i as int].0 as u32));
            }
            let font = self.font.get_font_of(c, f & 0xFF80);
            total = total + font.width() as i128;
            last_fmt = f;
            i = i + 1;
        }
        proof {
            assert(toks.len() == n);
            if n > 0 {
                assert(toks.last() == toks[n - 1]);
            }
            assert(0u32 & 0x400 == 0) by (bit_vector);
            if n >= 1 {
                assert(-0xffff_ffff_ffff_ffff * 0x8000_0000 <= (n - 1) * padding
                    <= 0xffff_ffff_ffff_ffff * 0x8000_0000) by (nonlinear_arith)
                    requires
                        -0x8000_0000 <= padding <= 0x8000_0000,
                        0 <= n - 1 <= 0xffff_ffff_ffff_ffff,
                ;
                assert(padding >= 0 ==> (n - 1) * padding >= 0) by (nonlinear_arith)
                    requires
                        n >= 1,
                ;
            }
        }
        if last_fmt & FMT_Italic != 0 {
            total = total + ITALIC_CHAR_HORIZON_PADDING as i128;
        }
        if n > 1 {
            total = total + ((n - 1) as i128) * (self.options.font_horizon_padding as i128);
        }
        total
    }

    /// The pixel width of a line of tokens.
    pub fn get_line_width(&mut self, line: &Vec<char>, fmt: &Vec<u32>) -> (w: i32)
        requires
            old(self).wf(),
            line@.len() == fmt@.len(),
            line_resolvable(old(self).pages(), zipped(line@, fmt@)),
            old(self).padding() >= 0,
            tokens_width(old(self).pages(), old(self).padding(), zipped(line@, fmt@)) <= i32::MAX,
        ensures
            final(self).wf(),
            final(self).pages() == old(self).pages(),
            final(self).colors() == old(self).colors(),
            final(self).padding() == old(self).padding(),
            final(self).line_gap() == old(self).line_gap(),
            w == tokens_width(old(self).pages(), old(self).padding(), zipped(line@, fmt@)),
            w >= 0,
            widths_known(old(self).pages(), zipped(line@, fmt@)),
    {
        self.measure_line(line, fmt) as i32
    }

    /// The pages that the text needs and that are not loaded, each once: the pages of
    /// its characters, and the page of the space, whose glyph stands in for the
    /// glyphs of pages that cannot be read.
    #[verifier::rlimit(50)]
    pub fn missing_pages(&self, text: &str) -> (r: Vec<u32>)
        ensures
            forall|g: u32|
                r@.contains(g) <==> text_needs(text@, g) && !self.pages().contains_key(g),
            forall|a: int, b: int| 0 <= a < b < r@.len() ==> r@[a] != r@[b],
    {
        let ghost toks = tokens_of(text@);
        let (lines, fmts) = split_format_and_text(text);
        let mut groups: Vec<u32> = Vec::new();
        if !self.font.has_group(0) {
            groups.push(0);
            proof {
                assert(groups@[0] == 0);
            }
        }
        let n: usize = lines.len();
        let mut li: usize = 0;
        while li < n
            invariant
                li <= n,
                n == toks.len(),
                lines@.len() == n,
                fmts@.len() == n,
                toks == tokens_of(text@),
                lists_hold(lines@, fmts@, toks),
                forall|g: u32|
                    groups@.contains(g) <==> needed_before(toks, li as int, 0, g)
                        && !self.pages().contains_key(g),
                forall|a: int, b: int| 0 <= a < b < groups@.len() ==> groups@[a] != groups@[b],
            decreases n - li,
        {
            let line = &lines[li];
            proof {
                assert(line_holds(lines@[li as int]@, fmts@[li as int]@, toks[li as int]));
            }
            let mut j: usize = 0;
            while j < line.len()
                invariant
                    j <= line@.len(),
                    li < n,
                    n == toks.len(),
                    lines@.len() == n,
                    fmts@.len() == n,
                    line@ == lines@[li as int]@,
                    line@.len() == toks[li as int].len(),
                    line_holds(lines@[li as int]@, fmts@[li as int]@, toks[li as int]),
                    forall|g: u32|
                        groups@.contains(g) <==> needed_before(toks, li as int, j as int, g)
                            && !self.pages().contains_key(g),
                    forall|a: int, b: int|
                        0 <= a < b < groups@.len() ==> groups@[a] != groups@[b],
                decreases line@.len() - j,
            {
                let group: u32 = (line[j] as u32) / 256;
                let ghost before = groups@;
                proof {
                    assert(toks[li as int][j as int].0 == line@[j as int]);
                }
                if !self.font.has_group(group) && !holds_number(&groups, group) {
                    groups.push(group);
                    proof {
                        assert(groups@[before.len() as int] == group);
                        assert(groups@.contains(group));
                        assert forall|g: u32| groups@.contains(g) implies before.contains(g) || g
                            == group by {
                            let at = choose|at: int| 0 <= at < groups@.len() && groups@[at] == g;
                            if at < before.len() {
                                assert(before[at] == g);
                            }
                        }
                        assert forall|g: u32| before.contains(g) implies groups@.contains(g) by {
                            let at = choose|at: int| 0 <= at < before.len() && before[at] == g;
                            assert(groups@[at] == g);
                        }
                    }
                }
                proof {
                    assert forall|g: u32|
                        needed_before(toks, li as int, j + 1, g) <==> needed_before(
                            toks,
                            li as int,
                            j as int,
                            g,
                        ) || g == group by {
                        if needed_before(toks, li as int, j + 1, g) && g != 0 {
                            let (i, k) = choose|i: int, k: int|
                                comes_before(toks, li as int, j + 1, i, k) && page_of_token(
                                    toks[i][k],
                                ) == g;
                            if !(i == li && k == j) {
                                assert(comes_before(toks, li as int, j as int, i, k));
                            }
                        }
                        if g == group {
                            assert(comes_before(toks, li as int, j + 1, li as int, j as int));
                        }
                        if needed_before(toks, li as int, j as int, g) && g != 0 {
                            let (i, k) = choose|i: int, k: int|
                                comes_before(toks, li as int, j as int, i, k) && page_of_token(
                                    toks[i][k],
                                ) == g;
                            assert(comes_before(toks, li as int, j + 1, i, k));
                        }
                    }
                    assert forall|g: u32|
                        groups@.contains(g) <==> needed_before(toks, li as int, j + 1, g)
                            && !self.pages().contains_key(g) by {
                        assert(needed_before(toks, li as int, j + 1, g) <==> needed_before(
                            toks,
                            li as int,
                            j as int,
                            g,
                        ) || g == group);
                        assert(before.contains(g) <==> needed_before(toks, li as int, j as int, g)
                            && !self.pages().contains_key(g));
                    }
                }
                j = j + 1;
            }
            proof {
                assert forall|g: u32|
                    needed_before(toks, li + 1, 0, g) <==> needed_before(
                        toks,
                        li as int,
                        line@.len() as int,
                        g,
                    ) by {
                    if needed_before(toks, li + 1, 0, g) && g != 0 {
                        let (i, k) = choose|i: int, k: int|
                            comes_before(toks, li + 1, 0, i, k) && page_of_token(toks[i][k]) == g;
                        assert(comes_before(toks, li as int, line@.len() as int, i, k));
                    }
                    if needed_before(toks, li as int, line@.len() as int, g) && g != 0 {
                        let (i, k) = choose|i: int, k: int|
                            comes_before(toks, li as int, line@.len() as int, i, k)
                                && page_of_token(toks[i][k]) == g;
                        assert(comes_before(toks, li + 1, 0, i, k));
                    }
                }
            }
            li = li + 1;
        }
        proof {
            assert forall|g: u32| needed_before(toks, n as int, 0, g) <==> text_needs(text@, g) by {
                if needed_before(toks, n as int, 0, g) && g != 0 {
                    let (i, k) = choose|i: int, k: int|
                        comes_before(toks, n as int, 0, i, k) && page_of_token(toks[i][k]) == g;
                    assert(0 <= i < toks.len() && 0 <= k < toks[i].len());
                }
                if text_needs(text@, g) && g != 0 {
                    let (i, k) = choose|i: int, k: int|
                        0 <= i < toks.len() && 0 <= k < toks[i].len() && page_of_token(toks[i][k])
                            == g;
                    assert(comes_before(toks, n as int, 0, i, k));
                }
            }
        }
        groups
    }

    /// Draws marked-up text where it can be drawn: where every glyph can be made from
    /// the pages that are loaded, the gaps are not negative and the canvas fits.
    #[verifier::rlimit(50)]
    pub fn try_render(&mut self, text: &str) -> (r: Option<Bitmap>)
        requires
            old(self).wf(),
        ensures
            final(self).wf(),
            final(self).pages() == old(self).pages(),
            final(self).colors() == old(self).colors(),
            final(self).padding() == old(self).padding(),
            final(self).line_gap() == old(self).line_gap(),
            r is Some <==> drawable(
                old(self).pages(),
                old(self).padding(),
                old(self).line_gap(),
                text@,
            ),
            r is Some ==> r.unwrap()@ == rendered(
                old(self).pages(),
                old(self).colors(),
                old(self).padding(),
                old(self).line_gap(),
                text@,
            ),
    {
        let ghost pages = self.pages();
        let ghost pad = self.padding();
        let ghost gap = self.line_gap();
        let ghost toks = tokens_of(text@);
        if self.options.font_horizon_padding < 0 || self.options.line_padding < 0 {
            return None;
        }
        let (lines, fmts) = split_format_and_text(text);
        let n: usize = lines.len();
        let mut widest_so_far: i128 = 0;
        let mut li: usize = 0;
        while li < n
            invariant
                li <= n,
                n == toks.len(),
                toks == tokens_of(text@),
                lists_hold(lines@, fmts@, toks),
                self.wf(),
                self.pages() == pages,
                self.colors() == old(self).colors(),
                self.padding() == pad,
                self.line_gap() == gap,
                pages == old(self).pages(),
                pad == old(self).padding(),
                gap == old(self).line_gap(),
                lines@.len() == n,
                fmts@.len() == n,
                pad >= 0,
                gap >= 0,
                widest_so_far == widest(pages, pad, toks, li as int),
                0 <= widest_so_far <= i32::MAX,
                forall|j: int| 0 <= j < li ==> line_resolvable(pages, #[trigger] toks[j]),
                forall|j: int| 0 <= j < li ==> tokens_width(pages, pad, #[trigger] toks[j]) <= i32::MAX,
            decreases n - li,
        {
            proof {
                assert(line_holds(lines@[li as int]@, fmts@[li as int]@, toks[li as int]));
                assert(zipped(lines@[li as int]@, fmts@[li as int]@) =~= toks[li as int]);
            }
            let line = &lines[li];
            let mut j: usize = 0;
            while j < line.len()
                invariant
                    j <= line@.len(),
                    li < n,
                    n == toks.len(),
                    line@ == lines@[li as int]@,
                    line_holds(lines@[li as int]@, fmts@[li as int]@, toks[li as int]),
                    self.wf(),
                    self.pages() == pages,
                    self.colors() == old(self).colors(),
                    self.padding() == pad,
                    self.line_gap() == gap,
                    pages == old(self).pages(),
                    pad == old(self).padding(),
                    gap == old(self).line_gap(),
                    lines@.len() == n,
                    fmts@.len() == n,
                    toks == tokens_of(text@),
                    forall|k: int|
                        0 <= k < j ==> resolvable(pages, (#[trigger] toks[li as int][k]).0 as u32),
                decreases line@.len() - j,
            {
                proof {
                    assert(toks[li as int][j as int].0 == line@[j as int]);
                }
                if !self.font.can_resolve(line[j]) {
                    proof {
                        assert(!line_resolvable(pages, toks[li as int]));
                    }
                    return None;
                }
                j = j + 1;
            }
            proof {
                assert(line_resolvable(pages, toks[li as int]));
            }
            let w = self.measure_line(&lines[li], &fmts[li]);
            if w > i32::MAX as i128 {
                return None;
            }
            if w > widest_so_far {
                widest_so_far = w;
            }
            li = li + 1;
        }
        let line_padding: i128 = self.options.line_padding as i128;
        proof {
            assert(0 <= (n - 1) * gap <= 0xffff_ffff_ffff_ffff * 0x8000_0000) by (nonlinear_arith)
                requires
                    0 <= gap <= 0x8000_0000,
                    1 <= n <= 0xffff_ffff_ffff_ffff,
            ;
        }
        let height: i128 = (n as i128) * 31 + ((n - 1) as i128) * line_padding;
        if height > i32::MAX as i128 {
            return None;
        }
        proof {
            assert(0 <= (widest_so_far + 31) * height <= 0x1_0000_0000 * 0x1_0000_0000)
                by (nonlinear_arith)
                requires
                    0 <= widest_so_far <= 0x7fff_ffff,
                    0 <= height <= 0x7fff_ffff,
            ;
        }
        if (widest_so_far + 31) * height * 4 > usize::MAX as i128 {
            return None;
        }
        proof {
            assert(drawable(pages, pad, gap, text@));
        }
        Some(self.render(text))
    }

    /// Draws one line of tokens on the canvas, its top at `start_y`.
    #[verifier::rlimit(50)]
    fn render_line(&mut self, mat: &mut Bitmap, line: &Vec<char>, fmt: &Vec<u32>, start_y: u32)
        requires
            old(self).wf(),
            line@.len() == fmt@.len(),
            line_resolvable(old(self).pages(), zipped(line@, fmt@)),
            widths_known(old(self).pages(), zipped(line@, fmt@)),
            old(self).padding() >= 0,
            tokens_width(old(self).pages(), old(self).padding(), zipped(line@, fmt@)) <= old(
                mat,
            )@.width,
            old(mat)@.width <= i32::MAX,
            start_y + GLYPH_HEIGHT <= old(mat)@.height,
            old(mat)@.height <= i32::MAX,
            (old(mat)@.width + GLYPH_HEIGHT) * old(mat)@.height * 4 <= usize::MAX,
        ensures
            final(self).wf(),
            final(self).pages() == old(self).pages(),
            final(self).colors() == old(self).colors(),
            final(self).padding() == old(self).padding(),
            final(self).line_gap() == old(self).line_gap(),
            final(mat)@ == pen_after(
                old(self).pages(),
                old(self).colors(),
                old(self).padding(),
                start_y as int,
                zipped(line@, fmt@),
                line@.len() as int,
                old(mat)@,
            ).canvas,
            final(mat)@.wf(),
            final(mat)@.width == old(mat)@.width,
            final(mat)@.height == old(mat)@.height,
    {
        let ghost pages = self.pages();
        let ghost table = self.colors();
        let ghost toks = zipped(line@, fmt@);
        let ghost pad = self.padding();
        let ghost y0 = start_y as int;
        let ghost start = mat@;
        let ghost mut pen = Pen { canvas: start, x: 0, italic_from: -1 };
        let padding: i64 = self.options.font_horizon_padding as i64;
        let n: usize = line.len();
        let mut start_x: i64 = 0;
        let mut italic_start_x: i64 = -1;
        let mut i: usize = 0;
        proof {
            mat.lemma_view();
        }
        while i < n
            invariant
                i <= n,
                n == line@.len(),
                n == fmt@.len(),
                toks == zipped(line@, fmt@),
                toks.len() == n,
                self.wf(),
                self.pages() == pages,
                self.options == old(self).options,
                table == self.colors(),
                pad == self.padding(),
                padding == pad,
                pad >= 0,
                y0 == start_y,
                line_resolvable(pages, toks),
                widths_known(pages, toks),
                tokens_width(pages, pad, toks) <= start.width,
                start.width <= i32::MAX,
                y0 + GLYPH_HEIGHT <= start.height,
                start.height <= i32::MAX,
                (start.width + GLYPH_HEIGHT) * start.height * 4 <= usize::MAX,
                pen == pen_after(pages, table, pad, y0, toks, i as int, start),
                mat@ == pen.canvas,
                mat@.wf(),
                mat@.width == start.width,
                mat@.height == start.height,
                start_x == pen.x,
                italic_start_x == pen.italic_from,
                start_x == glyph_sum(pages, toks, i as int) + i * pad,
                italic_start_x == -1 || 0 <= italic_start_x <= start_x,
            decreases n - i,
        {
            let f: u32 = fmt[i];
            let c: char = line[i];
            let ghost glyph = token_glyph(pages, toks[i as int]);
            proof {
                assert(toks[i as int] == (c, f));
                assert(resolvable(pages, toks[i as int].0 as u32));
                assert(glyph.picture.width >= 0);
                lemma_glyph_sum_grows(pages, toks, i + 1, n as int);
                lemma_glyph_sum_grows(pages, toks, i as int, i + 1);
                assert(i * pad <= (n - 1) * pad) by (nonlinear_arith)
                    requires
                        0 <= i <= n - 1,
                        pad >= 0,
                ;
                assert(0 <= i * pad) by (nonlinear_arith)
                    requires
                        0 <= i,
                        pad >= 0,
                ;
                assert((i + 1) * pad == i * pad + pad) by (nonlinear_arith);
            }
            let patch = self.font.get_font_of(c, f & 0xFF80);
            let color = get_color(&self.options, f);
            draw(mat, &patch, (start_x as i32, start_y as i32), color);
            if f & FMT_Italic != 0 && italic_start_x == -1 {
                italic_start_x = start_x;
            }
            let end: i64 = start_x + patch.width() as i64;
            start_x = end + padding;
            let ghost canvas = mat@;
            let run_goes_on: bool = italic_start_x == -1 || (i != n - 1 && fmt[i + 1] & FMT_Italic
                != 0);
            proof {
                if i != n - 1 {
                    assert(toks[i + 1] == (line@[i + 1], fmt@[i + 1]));
                }
            }
            if !run_goes_on {
                let region = crop(
                    mat,
                    italic_start_x as u32,
                    start_y,
                    (end - italic_start_x) as u32,
                    GLYPH_HEIGHT,
                );
                proof {
                    assert((region@.width + region@.height) * region@.height * 4 <= (start.width
                        + GLYPH_HEIGHT) * start.height * 4) by (nonlinear_arith)
                        requires
                            0 <= region@.width <= start.width,
                            0 <= region@.height <= GLYPH_HEIGHT,
                            GLYPH_HEIGHT <= start.height,
                    ;
                }
                let strip = italic(&region);
                let paste_x: i64 = if italic_start_x - 4 > 0 {
                    italic_start_x - 4
                } else {
                    0
                };
                paste(mat, &strip, paste_x as u32, start_y);
                italic_start_x = -1;
            }
            proof {
                pen = pen_step(pages, table, pad, y0, toks, i as int, pen);
            }
            i = i + 1;
        }
    }

    /// Draws marked-up text: a canvas as wide as the widest line and as high as the
    /// lines, each line drawn glyph by glyph, and each run of italic glyphs sheared
    /// once it is complete.
    #[verifier::rlimit(50)]
    pub fn render(&mut self, text: &str) -> (r: Bitmap)
        requires
            old(self).wf(),
            drawable(old(self).pages(), old(self).padding(), old(self).line_gap(), text@),
        ensures
            final(self).wf(),
            final(self).pages() == old(self).pages(),
            final(self).colors() == old(self).colors(),
            final(self).padding() == old(self).padding(),
            final(self).line_gap() == old(self).line_gap(),
            r@ == rendered(
                old(self).pages(),
                old(self).colors(),
                old(self).padding(),
                old(self).line_gap(),
                text@,
            ),
    {
        let ghost pages = self.pages();
        let ghost table = self.colors();
        let ghost pad = self.padding();
        let ghost gap = self.line_gap();
        let ghost toks = tokens_of(text@);
        let (lines, fmts) = split_format_and_text(text);
        let n: usize = lines.len();
        let mut max_width: i32 = 0;
        let mut li: usize = 0;
        while li < n
            invariant
                li <= n,
                n == toks.len(),
                toks == tokens_of(text@),
                lists_hold(lines@, fmts@, toks),
                self.wf(),
                self.pages() == pages,
                self.colors() == table,
                self.padding() == pad,
                self.line_gap() == gap,
                drawable(pages, pad, gap, text@),
                max_width == widest(pages, pad, toks, li as int),
                forall|j: int| 0 <= j < li ==> widths_known(pages, #[trigger] toks[j]),
            decreases n - li,
        {
            proof {
                assert(line_holds(lines@[li as int]@, fmts@[li as int]@, toks[li as int]));
                assert(zipped(lines@[li as int]@, fmts@[li as int]@) =~= toks[li as int]);
                assert(line_resolvable(pages, toks[li as int]));
            }
            let w = self.get_line_width(&lines[li], &fmts[li]);
            if w > max_width {
                max_width = w;
            }
            li = li + 1;
        }
        proof {
            assert(0 <= (n - 1) * gap && n * GLYPH_HEIGHT <= canvas_height(n as int, gap))
                by (nonlinear_arith)
                requires
                    n >= 1,
                    gap >= 0,
                    canvas_height(n as int, gap) == n * GLYPH_HEIGHT + (n - 1) * gap,
            ;
            assert((n - 1) * gap <= 0x7fff_ffff);
        }
        let line_padding: i64 = self.options.line_padding as i64;
        let height: i64 = (n as i64) * (GLYPH_HEIGHT as i64) + ((n - 1) as i64) * line_padding;
        proof {
            lemma_widest_nonnegative(pages, pad, toks, n as int);
            assert(max_width * height * 4 <= (max_width + GLYPH_HEIGHT) * height * 4)
                by (nonlinear_arith)
                requires
                    0 <= max_width,
                    0 <= height,
            ;
        }
        let mut mat = Bitmap::new(max_width as u32, height as u32);
        let ghost blank = blank_canvas(max_width as int, height as int);
        proof {
            lemma_picture_equal(mat@, blank);
        }
        li = 0;
        while li < n
            invariant
                li <= n,
                n >= 1,
                n == toks.len(),
                toks == tokens_of(text@),
                lists_hold(lines@, fmts@, toks),
                self.wf(),
                self.pages() == pages,
                self.colors() == table,
                self.padding() == pad,
                self.line_gap() == gap,
                line_padding == gap,
                drawable(pages, pad, gap, text@),
                max_width == widest(pages, pad, toks, n as int),
                height == canvas_height(n as int, gap),
                forall|j: int| 0 <= j < n ==> widths_known(pages, #[trigger] toks[j]),
                mat@.wf(),
                mat@.width == max_width,
                mat@.height == height,
                mat@ == lines_drawn(pages, table, pad, gap, toks, li as int, blank),
            decreases n - li,
        {
            proof {
                assert(line_holds(lines@[li as int]@, fmts@[li as int]@, toks[li as int]));
                assert(zipped(lines@[li as int]@, fmts@[li as int]@) =~= toks[li as int]);
                assert(line_resolvable(pages, toks[li as int]));
                assert(widths_known(pages, toks[li as int]));
                lemma_widest_bounds(pages, pad, toks, li as int, n as int);
                assert(li * (GLYPH_HEIGHT + gap) + GLYPH_HEIGHT <= canvas_height(n as int, gap))
                    by (nonlinear_arith)
                    requires
                        0 <= li <= n - 1,
                        gap >= 0,
                        canvas_height(n as int, gap) == n * GLYPH_HEIGHT + (n - 1) * gap,
                ;
                assert(0 <= li * (GLYPH_HEIGHT + gap)) by (nonlinear_arith)
                    requires
                        0 <= li,
                        gap >= 0,
                ;
            }
            let start_y: i64 = (li as i64) * (GLYPH_HEIGHT as i64 + line_padding);
            self.render_line(&mut mat, &lines[li], &fmts[li], start_y as u32);
            li = li + 1;
        }
        mat
    }
}

/// The colour table of the default options.
pub open spec fn default_table() -> Map<u32, Rgba> {
    Map::new(|code: u32| default_color(code) is Some, |code: u32| default_color(code).unwrap())
}

/// The colour table of the options, or of the default options where none are given.
pub open spec fn chosen_colors(options: Option<SimulateOptions>) -> Map<u32, Rgba> {
    match options {
        Some(given) => given.color_mapping@,
        None => default_table(),
    }
}

/// The gap between glyphs of the options, or of the default options.
pub open spec fn chosen_padding(options: Option<SimulateOptions>) -> int {
    match options {
        Some(given) => given.font_horizon_padding as int,
        None => CHAR_HORIZON_PADDING as int,
    }
}

/// The gap between lines of the options, or of the default options.
pub open spec fn chosen_line_gap(options: Option<SimulateOptions>) -> int {
    match options {
        Some(given) => given.line_padding as int,
        None => 6,
    }
}

/// Draws marked-up text with the glyphs of `font`, whose pages are loaded, and with
/// the default options where none are given.
pub fn render(font: RuneFont, text: &str, options: Option<SimulateOptions>) -> (r: Bitmap)
    requires
        font.wf(),
        drawable(font.pages(), chosen_padding(options), chosen_line_gap(options), text@),
    ensures
        r@ == rendered(
            font.pages(),
            chosen_colors(options),
            chosen_padding(options),
            chosen_line_gap(options),
            text@,
        ),
{
    let chosen = match options {
        Some(given) => given,
        None => SimulateOptions::default(),
    };
    proof {
        if options is None {
            assert(chosen.color_mapping@ =~= default_table());
        }
    }
    let mut simulator = TellRawSimulator::new(font, chosen);
    simulator.render(text)
}

/// The page of the character of a token.
pub open spec fn page_of_token(tok: (char, u32)) -> u32 {
    cell_of(tok.0 as u32).0
}

/// The text needs the page `g`: it is the page of the space, or of one of the
/// characters of the text.
pub open spec fn text_needs(text: Seq<char>, g: u32) -> bool {
    g == 0 || exists|i: int, k: int|
        0 <= i < tokens_of(text).len() && 0 <= k < tokens_of(text)[i].len() && page_of_token(
            tokens_of(text)[i][k],
        ) == g
}

/// The token `k` of the line `i` comes before the token `j` of the line `li`.
pub open spec fn comes_before(
    lines: Seq<Seq<(char, u32)>>,
    li: int,
    j: int,
    i: int,
    k: int,
) -> bool {
    0 <= i < lines.len() && 0 <= k < lines[i].len() && (i < li || (i == li && k < j))
}

/// The page `g` is the page of the space, or of a token before the token `j` of the
/// line `li`.
pub open spec fn needed_before(lines: Seq<Seq<(char, u32)>>, li: int, j: int, g: u32) -> bool {
    g == 0 || exists|i: int, k: int|
        comes_before(lines, li, j, i, k) && page_of_token(lines[i][k]) == g
}

fn holds_number(v: &Vec<u32>, g: u32) -> (r: bool)
    ensures
        r == v@.contains(g),
{
    let mut i: usize = 0;
    while i < v.len()
        invariant
            i <= v@.len(),
            forall|j: int| 0 <= j < i ==> v@[j] != g,
        decreases v@.len() - i,
    {
        if v[i] == g {
            return true;
        }
        i = i + 1;
    }
    false
}

/// The glyph of every token of the line has a width.
pub open spec fn widths_known(pages: Map<u32, PageView>, line: Seq<(char, u32)>) -> bool {
    forall|j: int| 0 <= j < line.len() ==> token_glyph(pages, #[trigger] line[j]).picture.width >= 0
}

} // verus!

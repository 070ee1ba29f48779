//! The width of formatted lines, and padding that brings one field to a width.

use vstd::prelude::*;
use crate::define::{BOLD_PAD, CHAR_HORIZON_PADDING, ITALIC_CHAR_HORIZON_PADDING, SPACE_WIDTH};
use crate::define::{BOLD_SPACE_UNIT, PLAIN_SPACE_UNIT};
use crate::font_widths::{FontWidths, width_of_code};
use crate::text::{all_blank, all_white_space, chars_of, push_spaces, spaces, string_of, views};
use crate::utils::{
    closest_candidates, find_closest, lemma_candidates_len, min_abs_residual, residual,
    search_bound, ties,
};

verus! {

/// The character that introduces a format marker.
pub const SENTINEL: char = '§';

/// The width of the glyph of `c`, bold or not.
pub open spec fn glyph_width(c: char, bold: bool) -> int {
    width_of_code(c as u32) + if bold {
        BOLD_PAD as int
    } else {
        0
    }
}

/// Width of the first character of `ch`, bold or not; 0 for the empty string.
pub fn get_char_width(ch: &str, bold: bool) -> (w: i32)
    ensures
        w == (if ch@.len() == 0 {
            0
        } else {
            glyph_width(ch@[0], bold)
        }),
        0 <= w <= 14,
{
    if ch.is_empty() {
        return 0;
    }
    let font_widths = FontWidths::new();
    width_in(&font_widths, ch.get_char(0), bold)
}

fn width_in(font_widths: &FontWidths, c: char, bold: bool) -> (w: i32)
    ensures
        w == glyph_width(c, bold),
        2 <= w <= 14,
{
    let mut width: i32 = font_widths.get_width(c as u32) as i32;
    if bold {
        width = width + BOLD_PAD;
    }
    width
}

/// What the scan of a line holds after some of its characters.
pub struct LineScan {
    /// Sum of the widths of the glyphs seen.
    pub width: int,
    /// Number of glyphs seen.
    pub count: int,
    /// Bold is on.
    pub bold: bool,
    /// Italic is on.
    pub italic: bool,
    /// The last character was the sentinel.
    pub fmt: bool,
}

/// Bold after the marker letter `ch`.
pub open spec fn bold_after(bold: bool, ch: char) -> bool {
    if ch == 'l' {
        true
    } else if ch == 'r' {
        false
    } else {
        bold
    }
}

/// Italic after the marker letter `ch`.
pub open spec fn italic_after(italic: bool, ch: char) -> bool {
    if ch == 'o' {
        true
    } else if ch == 'r' {
        false
    } else {
        italic
    }
}

/// One step of the scan: the sentinel opens a marker, the character after it is the
/// marker's letter, every other character is a glyph.
pub open spec fn line_step(st: LineScan, ch: char) -> LineScan {
    if ch == SENTINEL {
        LineScan { width: st.width, count: st.count, bold: st.bold, italic: st.italic, fmt: true }
    } else if st.fmt {
        LineScan {
            width: st.width,
            count: st.count,
            bold: bold_after(st.bold, ch),
            italic: italic_after(st.italic, ch),
            fmt: false,
        }
    } else {
        LineScan {
            width: st.width + glyph_width(ch, st.bold),
            count: st.count + 1,
            bold: st.bold,
            italic: st.italic,
            fmt: false,
        }
    }
}

/// The scan before the first character.
pub open spec fn initial_scan() -> LineScan {
    LineScan { width: 0, count: 0, bold: false, italic: false, fmt: false }
}

/// The scan of the characters of `s`, taken up from the state `st`.
pub open spec fn scan_from(st: LineScan, s: Seq<char>) -> LineScan
    decreases s.len(),
{
    if s.len() == 0 {
        st
    } else {
        line_step(scan_from(st, s.drop_last()), s.last())
    }
}

/// The scan of a whole line.
pub open spec fn line_scan(s: Seq<char>) -> LineScan {
    scan_from(initial_scan(), s)
}

/// Scanning two texts in a row is scanning the second from where the first ends.
pub proof fn lemma_scan_concat(st: LineScan, a: Seq<char>, b: Seq<char>)
    ensures
        scan_from(st, a + b) == scan_from(scan_from(st, a), b),
    decreases b.len(),
{
    if b.len() == 0 {
        assert(a + b == a);
    } else {
        assert((a + b).drop_last() == a + b.drop_last());
        assert((a + b).last() == b.last());
        lemma_scan_concat(st, a, b.drop_last());
    }
}

/// Outside a marker, `k` spaces add `k` glyphs of the width of a space.
pub proof fn lemma_scan_spaces(st: LineScan, k: int)
    requires
        k >= 0,
        !st.fmt,
    ensures
        scan_from(st, spaces(k)) == (LineScan {
            width: st.width + k * glyph_width(' ', st.bold),
            count: st.count + k,
            bold: st.bold,
            italic: st.italic,
            fmt: false,
        }),
    decreases k,
{
    if k > 0 {
        assert(spaces(k).drop_last() == spaces(k - 1));
        assert(spaces(k).last() == ' ');
        lemma_scan_spaces(st, k - 1);
        assert(k * glyph_width(' ', st.bold) == (k - 1) * glyph_width(' ', st.bold) + glyph_width(
            ' ',
            st.bold,
        )) by (nonlinear_arith);
    } else {
        assert(0 * glyph_width(' ', st.bold) == 0);
    }
}

/// A marker changes the flags and adds no glyph.
pub proof fn lemma_scan_marker(st: LineScan, letter: char)
    requires
        letter != SENTINEL,
    ensures
        scan_from(st, seq![SENTINEL, letter]) == (LineScan {
            width: st.width,
            count: st.count,
            bold: bold_after(st.bold, letter),
            italic: italic_after(st.italic, letter),
            fmt: false,
        }),
{
    let m = seq![SENTINEL, letter];
    assert(m.drop_last() == seq![SENTINEL]);
    assert(m.last() == letter);
    assert(seq![SENTINEL].drop_last() == Seq::<char>::empty());
    assert(seq![SENTINEL].last() == SENTINEL);
    reveal_with_fuel(scan_from, 3);
}

/// The pixel width of a line: its glyphs, the gaps between them, and the italic pad
/// where the line ends in italic.
pub open spec fn line_width(s: Seq<char>) -> int {
    let st = line_scan(s);
    st.width + (if st.count > 1 {
        (st.count - 1) * CHAR_HORIZON_PADDING
    } else {
        0
    }) + (if st.italic {
        ITALIC_CHAR_HORIZON_PADDING as int
    } else {
        0
    })
}

/// The sum of the plain glyph widths of `s`.
pub open spec fn plain_width_sum(s: Seq<char>) -> int
    decreases s.len(),
{
    if s.len() == 0 {
        0
    } else {
        plain_width_sum(s.drop_last()) + glyph_width(s.last(), false)
    }
}

/// The scan of a prefix never exceeds the scan of the line.
pub proof fn lemma_line_scan_monotone(s: Seq<char>, k: int)
    requires
        0 <= k <= s.len(),
    ensures
        0 <= 2 * line_scan(s.take(k)).count <= line_scan(s.take(k)).width <= line_scan(s).width,
        line_scan(s.take(k)).count <= line_scan(s).count,
        line_scan(s).width <= line_width(s),
    decreases s.len(),
{
    if s.len() == 0 {
        assert(s.take(k) == s);
    } else {
        lemma_line_scan_monotone(s.drop_last(), s.len() - 1);
        assert(s.drop_last().take(s.len() - 1) == s.drop_last());
        if k == s.len() {
            assert(s.take(k) == s);
        } else {
            lemma_line_scan_monotone(s.drop_last(), k);
            assert(s.drop_last().take(k) == s.take(k));
        }
    }
}

/// A line without a sentinel is as wide as its plain glyphs and the gaps between
/// them.
pub proof fn lemma_line_width_plain(s: Seq<char>)
    requires
        !s.contains(SENTINEL),
    ensures
        line_width(s) == plain_width_sum(s) + (if s.len() > 0 {
            (s.len() - 1) * CHAR_HORIZON_PADDING
        } else {
            0
        }),
        line_scan(s).count == s.len(),
        line_scan(s).width == plain_width_sum(s),
        !line_scan(s).bold && !line_scan(s).italic && !line_scan(s).fmt,
    decreases s.len(),
{
    if s.len() > 0 {
        let t = s.drop_last();
        assert forall|i: int| 0 <= i < t.len() implies t[i] != SENTINEL by {
            assert(s[i] == t[i]);
            assert(s.contains(s[i]));
        }
        if t.contains(SENTINEL) {
            let j = choose|j: int| 0 <= j < t.len() && t[j] == SENTINEL;
            assert(false);
        }
        lemma_line_width_plain(t);
        assert(s.contains(s.last()));
    }
}

/// Pixel width of one line of marked-up text.
pub fn get_line_width(line: &str) -> (w: i32)
    requires
        !line@.contains('\n'),
        line_width(line@) <= i32::MAX,
    ensures
        w == line_width(line@),
        w >= 0,
        !line@.contains(SENTINEL) ==> w == plain_width_sum(line@) + (if line@.len() > 0 {
            (line@.len() - 1) * CHAR_HORIZON_PADDING
        } else {
            0
        }),
{
    proof {
        if !line@.contains(SENTINEL) {
            lemma_line_width_plain(line@);
        }
    }
    let chars = chars_of(line);
    width_of_chars(&chars)
}

/// Pixel width of one line, given as characters.
pub fn width_of_chars(chars: &Vec<char>) -> (w: i32)
    requires
        line_width(chars@) <= i32::MAX,
    ensures
        w == line_width(chars@),
        w >= 0,
{
    let font_widths = FontWidths::new();
    let mut width: i32 = 0;
    let mut bold = false;
    let mut italic = false;
    let mut fmt = false;
    let mut length: i32 = 0;
    let mut i: usize = 0;
    assert(chars@.take(0) == Seq::<char>::empty());
    while i < chars.len()
        invariant
            i <= chars.len(),
            line_width(chars@) <= i32::MAX,
            line_scan(chars@.take(i as int)) == (LineScan {
                width: width as int,
                count: length as int,
                bold,
                italic,
                fmt,
            }),
        decreases chars.len() - i,
    {
        proof {
            lemma_line_scan_monotone(chars@, i + 1);
            assert(chars@.take(i + 1).drop_last() == chars@.take(i as int));
            assert(chars@.take(i + 1).last() == chars@[i as int]);
        }
        let ch = chars[i];
        if ch == SENTINEL {
            fmt = true;
        } else if fmt {
            fmt = false;
            if ch == 'l' {
                bold = true;
            } else if ch == 'o' {
                italic = true;
            } else if ch == 'r' {
                bold = false;
                italic = false;
            }
        } else {
            length = length + 1;
            width = width + width_in(&font_widths, ch, bold);
        }
        i = i + 1;
    }
    proof {
        assert(chars@.take(chars.len() as int) == chars@);
        lemma_line_scan_monotone(chars@, chars.len() as int);
    }
    if length > 1 {
        width = width + (length - 1) * CHAR_HORIZON_PADDING;
    }
    if italic {
        width = width + ITALIC_CHAR_HORIZON_PADDING;
    }
    width
}

/// The line can be measured: it holds no newline and is no wider than `i32` holds.
pub open spec fn line_measurable(s: Seq<char>) -> bool {
    !s.contains('\n') && line_width(s) <= i32::MAX
}

/// Pixel width of one line of marked-up text, where the line can be measured.
pub fn try_line_width(line: &str) -> (r: Option<i32>)
    ensures
        r is Some <==> line_measurable(line@),
        r is Some ==> r.unwrap() == line_width(line@),
{
    let chars = chars_of(line);
    let font_widths = FontWidths::new();
    let mut width: i64 = 0;
    let mut bold = false;
    let mut italic = false;
    let mut fmt = false;
    let mut length: i64 = 0;
    let mut i: usize = 0;
    proof {
        assert(chars@.take(0) == Seq::<char>::empty());
    }
    while i < chars.len()
        invariant
            i <= chars.len(),
            chars@ == line@,
            forall|j: int| 0 <= j < i ==> chars@[j] != '\n',
            0 <= width <= i32::MAX,
            0 <= length,
            line_scan(chars@.take(i as int)) == (LineScan {
                width: width as int,
                count: length as int,
                bold,
                italic,
                fmt,
            }),
        decreases chars.len() - i,
    {
        proof {
            lemma_line_scan_monotone(chars@, i + 1);
            lemma_line_scan_monotone(chars@, i as int);
            assert(chars@.take(i + 1).drop_last() == chars@.take(i as int));
            assert(chars@.take(i + 1).last() == chars@[i as int]);
        }
        let ch = chars[i];
        if ch == '\n' {
            proof {
                assert(chars@.contains('\n'));
            }
            return None;
        }
        if ch == SENTINEL {
            fmt = true;
        } else if fmt {
            fmt = false;
            if ch == 'l' {
                bold = true;
            } else if ch == 'o' {
                italic = true;
            } else if ch == 'r' {
                bold = false;
                italic = false;
            }
        } else {
            length = length + 1;
            width = width + width_in(&font_widths, ch, bold) as i64;
            if width > i32::MAX as i64 {
                return None;
            }
        }
        i = i + 1;
    }
    proof {
        assert(chars@.take(chars.len() as int) == chars@);
        lemma_line_scan_monotone(chars@, chars.len() as int);
        if chars@.contains('\n') {
            let j = choose|j: int| 0 <= j < chars@.len() && chars@[j] == '\n';
            assert(false);
        }
    }
    let mut total: i64 = width;
    if length > 1 {
        total = total + (length - 1) * (CHAR_HORIZON_PADDING as i64);
    }
    if italic {
        total = total + ITALIC_CHAR_HORIZON_PADDING as i64;
    }
    if total > i32::MAX as i64 {
        None
    } else {
        Some(total as i32)
    }
}

/// Every line is free of newlines and narrow enough to be measured.
pub open spec fn lines_measurable(lines: Seq<String>) -> bool {
    forall|i: int|
        0 <= i < lines.len() ==> !(#[trigger] lines[i])@.contains('\n') && line_width(lines[i]@)
            <= i32::MAX
}

/// Width of the widest of `lines`; 0 where there is none.
pub fn get_lines_width(lines: &[String]) -> (w: i32)
    requires
        lines_measurable(lines@),
    ensures
        forall|i: int| 0 <= i < lines@.len() ==> line_width((#[trigger] lines@[i])@) <= w,
        lines@.len() == 0 ==> w == 0,
        lines@.len() > 0 ==> exists|i: int|
            0 <= i < lines@.len() && w == line_width((#[trigger] lines@[i])@),
{
    let mut best: i32 = 0;
    let mut i: usize = 0;
    let ghost mut at: int = 0;
    while i < lines.len()
        invariant
            i <= lines@.len(),
            lines_measurable(lines@),
            forall|j: int| 0 <= j < i ==> line_width((#[trigger] lines@[j])@) <= best,
            i == 0 ==> best == 0,
            i > 0 ==> 0 <= at < i && best == line_width(lines@[at]@),
        decreases lines@.len() - i,
    {
        let w = get_line_width(lines[i].as_str());
        if i == 0 || w > best {
            best = w;
            proof {
                at = i as int;
            }
        }
        i = i + 1;
    }
    best
}

/// The pair of counts `(plain, bold)` that the search picks for a gap of `c` pixels.
pub open spec fn space_pair(c: int) -> (int, int) {
    let cands = closest_candidates(PLAIN_SPACE_UNIT as int, BOLD_SPACE_UNIT as int, c);
    ties(
        PLAIN_SPACE_UNIT as int,
        BOLD_SPACE_UNIT as int,
        c,
        cands,
        min_abs_residual(PLAIN_SPACE_UNIT as int, BOLD_SPACE_UNIT as int, c, cands),
    )[0]
}

/// By how many pixels the picked pair overshoots the gap of `c` pixels.
pub open spec fn space_residual(c: int) -> int {
    residual(PLAIN_SPACE_UNIT as int, BOLD_SPACE_UNIT as int, c, space_pair(c))
}

/// The gaps for which the search tries at least one pair and stays within `i32`.
pub open spec fn gap_in_range(c: int) -> bool {
    -19 <= c <= i32::MAX - 20
}

/// The padding for a gap of `c` pixels: the bold spaces between a bold marker and a
/// reset marker, then the plain spaces.
pub open spec fn gap_padding(c: int) -> Seq<char> {
    seq![SENTINEL, 'l'] + spaces(space_pair(c).1) + seq![SENTINEL, 'r'] + spaces(space_pair(c).0)
}

/// Padding of about `length` pixels.
pub fn get_specific_length_spaces(length: i32) -> (s: String)
    requires
        gap_in_range(length as int),
    ensures
        s@ == gap_padding(length as int),
{
    get_specific_length_spaces_and_diff(length, 0).0
}

/// Padding of about `length + prev_diff` pixels, with the pixels by which it
/// overshoots.
pub fn get_specific_length_spaces_and_diff(length: i32, prev_diff: i32) -> (r: (String, i32))
    requires
        gap_in_range(length + prev_diff),
    ensures
        r.0@ == gap_padding(length + prev_diff),
        r.1 == space_residual(length + prev_diff),
{
    let c: i32 = length + prev_diff;
    proof {
        let bound = search_bound(6, 8, c as int);
        assert(1 <= bound);
        assert(c + 8 >= 0 ==> bound * 6 <= c + 20);
        assert(c + 8 < 0 ==> bound <= 2);
        lemma_candidates_len(6, 8, c as int, bound as nat);
    }
    let (solutions, min_diff) = find_closest(PLAIN_SPACE_UNIT, BOLD_SPACE_UNIT, c);
    let (a, b, _) = solutions[0];
    let mut v: Vec<char> = Vec::new();
    v.push(SENTINEL);
    v.push('l');
    push_spaces(&mut v, b);
    v.push(SENTINEL);
    v.push('r');
    push_spaces(&mut v, a);
    proof {
        assert(v@ == gap_padding(c as int));
    }
    (string_of(&v), min_diff)
}


/// What the cutting of a text holds after some of its characters.
pub struct CutScan {
    /// Width of the piece in the making, gaps included.
    pub width: int,
    /// Bold is on.
    pub bold: bool,
    /// The last character was the sentinel.
    pub fmt: bool,
    /// The pieces that are closed.
    pub outputs: Seq<Seq<char>>,
    /// The piece in the making.
    pub cached: Seq<char>,
}

/// One step of the cutting. A piece is closed before a character once it has
/// reached `limit` pixels, and at every newline, which is dropped.
pub open spec fn cut_step(st: CutScan, limit: int, ch: char) -> CutScan {
    let closes = st.width >= limit || ch == '\n';
    let width = if closes {
        0
    } else {
        st.width
    };
    let outputs = if closes {
        st.outputs.push(st.cached)
    } else {
        st.outputs
    };
    let cached = if closes {
        Seq::empty()
    } else {
        st.cached
    };
    if ch == '\n' {
        CutScan { width, bold: st.bold, fmt: st.fmt, outputs, cached }
    } else if ch == SENTINEL {
        CutScan { width, bold: st.bold, fmt: true, outputs, cached: cached.push(ch) }
    } else if st.fmt {
        CutScan {
            width,
            bold: bold_after(st.bold, ch),
            fmt: false,
            outputs,
            cached: cached.push(ch),
        }
    } else {
        CutScan {
            width: width + glyph_width(ch, st.bold) + CHAR_HORIZON_PADDING,
            bold: st.bold,
            fmt: false,
            outputs,
            cached: cached.push(ch),
        }
    }
}

/// The cutting of a whole text.
pub open spec fn cut_scan(s: Seq<char>, limit: int) -> CutScan
    decreases s.len(),
{
    if s.len() == 0 {
        CutScan {
            width: 0,
            bold: false,
            fmt: false,
            outputs: Seq::empty(),
            cached: Seq::empty(),
        }
    } else {
        cut_step(cut_scan(s.drop_last(), limit), limit, s.last())
    }
}

/// The pixels that `spaces` space glyphs take, with the gaps between them.
pub open spec fn cut_limit(spaces: int) -> int {
    spaces * SPACE_WIDTH + (if spaces > 1 {
        (spaces - 1) * CHAR_HORIZON_PADDING
    } else {
        0
    })
}

/// The pieces that `cut_by_length` returns: the closed ones, and the last one
/// unless it is white space only.
pub open spec fn cut_pieces(s: Seq<char>, spaces: int) -> Seq<Seq<char>> {
    let st = cut_scan(s, cut_limit(spaces));
    if all_white_space(st.cached) {
        st.outputs
    } else {
        st.outputs.push(st.cached)
    }
}

/// Cuts a text into pieces, each closed as soon as it is as wide as `spaces` space
/// glyphs, and at every newline.
#[verifier::rlimit(50)]
pub fn cut_by_length(line: &str, spaces: i32) -> (r: Vec<String>)
    ensures
        views(r@) == cut_pieces(line@, spaces as int),
{
    let font_widths = FontWidths::new();
    let chars = chars_of(line);
    let spaces_wide: i64 = spaces as i64;
    let limit: i64 = spaces_wide * 4 + (if spaces_wide > 1 {
        (spaces_wide - 1) * 2
    } else {
        0
    });
    let mut width: i64 = 0;
    let mut bold = false;
    let mut fmt = false;
    let mut outputs: Vec<String> = Vec::new();
    let mut cached: Vec<char> = Vec::new();
    let mut i: usize = 0;
    proof {
        assert(chars@.take(0) == Seq::<char>::empty());
        assert(views(outputs@) == Seq::<Seq<char>>::empty());
    }
    while i < chars.len()
        invariant
            i <= chars.len(),
            chars@ == line@,
            limit == cut_limit(spaces as int),
            0 <= width <= 0x1_0000_0000_0000,
            cut_scan(chars@.take(i as int), limit as int) == (CutScan {
                width: width as int,
                bold,
                fmt,
                outputs: views(outputs@),
                cached: cached@,
            }),
        decreases chars.len() - i,
    {
        proof {
            assert(chars@.take(i + 1).drop_last() == chars@.take(i as int));
            assert(chars@.take(i + 1).last() == chars@[i as int]);
        }
        let ch = chars[i];
        if width >= limit || ch == '\n' {
            let ghost before = views(outputs@);
            let piece = string_of(&cached);
            outputs.push(piece);
            proof {
                assert(views(outputs@) == before.push(cached@));
            }
            cached = Vec::new();
            width = 0;
        }
        if ch != '\n' {
            if ch == SENTINEL {
                fmt = true;
            } else if fmt {
                fmt = false;
                if ch == 'l' {
                    bold = true;
                } else if ch == 'r' {
                    bold = false;
                }
            } else {
                width = width + (width_in(&font_widths, ch, bold) + CHAR_HORIZON_PADDING) as i64;
            }
            cached.push(ch);
        }
        i = i + 1;
    }
    proof {
        assert(chars@.take(chars.len() as int) == chars@);
    }
    if !all_blank(&cached) {
        let ghost before = views(outputs@);
        let piece = string_of(&cached);
        outputs.push(piece);
        proof {
            assert(views(outputs@) == before.push(cached@));
        }
    }
    outputs
}

/// The pixels between the end of `text` and the width of `spaces` space glyphs.
pub open spec fn field_gap(text: Seq<char>, spaces: int) -> int {
    spaces * SPACE_WIDTH - line_width(text)
}

/// The field can be padded: its text is one measurable line, and the gap and the
/// residual carried over stay within the range of the search.
pub open spec fn field_ready(text: Seq<char>, spaces: int, prev_diff: int) -> bool {
    &&& !text.contains('\n')
    &&& line_width(text) <= i32::MAX
    &&& i32::MIN <= field_gap(text, spaces) <= i32::MAX
    &&& field_gap(text, spaces) >= 0 ==> gap_in_range(field_gap(text, spaces) + prev_diff)
}

/// The padding of a field: none where the text is wider than the field.
pub open spec fn field_padding(text: Seq<char>, spaces: int, prev_diff: int) -> Seq<char> {
    if field_gap(text, spaces) < 0 {
        Seq::empty()
    } else {
        gap_padding(field_gap(text, spaces) + prev_diff)
    }
}

/// The residual of a field: the negative gap where the text is wider than the
/// field, else the pixels by which the padding overshoots.
pub open spec fn field_residual(text: Seq<char>, spaces: int, prev_diff: int) -> int {
    if field_gap(text, spaces) < 0 {
        field_gap(text, spaces)
    } else {
        space_residual(field_gap(text, spaces) + prev_diff)
    }
}

/// The padding that brings `text` to the width of `spaces` space glyphs, corrected
/// by the residual `prev_diff` of the field before it, and the new residual.
pub fn align_any_and_get_diff(text: &str, spaces: i32, prev_diff: i32) -> (r: (String, i32))
    requires
        field_ready(text@, spaces as int, prev_diff as int),
    ensures
        r.0@ == field_padding(text@, spaces as int, prev_diff as int),
        r.1 == field_residual(text@, spaces as int, prev_diff as int),
{
    let width: i64 = get_line_width(text) as i64;
    let spaces_left: i64 = (spaces as i64) * (SPACE_WIDTH as i64) - width;
    if spaces_left < 0 {
        return (String::new(), spaces_left as i32);
    }
    get_specific_length_spaces_and_diff(spaces_left as i32, prev_diff)
}

/// The padding that brings `text` to the width of `spaces` space glyphs, with the
/// new residual, where the field can be padded.
pub fn try_align_any_and_get_diff(text: &str, spaces: i32, prev_diff: i32) -> (r: Option<
    (String, i32),
>)
    ensures
        r is Some <==> field_ready(text@, spaces as int, prev_diff as int),
        r is Some ==> r.unwrap().0@ == field_padding(text@, spaces as int, prev_diff as int)
            && r.unwrap().1 == field_residual(text@, spaces as int, prev_diff as int),
{
    let width: i64 = match try_line_width(text) {
        Some(w) => w as i64,
        None => {
            return None;
        },
    };
    let gap: i64 = (spaces as i64) * (SPACE_WIDTH as i64) - width;
    if gap < i32::MIN as i64 || gap > i32::MAX as i64 {
        return None;
    }
    if gap >= 0 {
        let c: i64 = gap + prev_diff as i64;
        if c < -19 || c > i32::MAX as i64 - 20 {
            return None;
        }
    }
    Some(align_any_and_get_diff(text, spaces, prev_diff))
}

/// The padding that brings `text` to the width of `spaces` space glyphs.
pub fn align_any(text: &str, spaces: i32) -> (s: String)
    requires
        field_ready(text@, spaces as int, 0),
    ensures
        s@ == field_padding(text@, spaces as int, 0),
{
    align_any_and_get_diff(text, spaces, 0).0
}

/// `text`, then its padding.
pub fn align_left(text: &str, spaces: i32) -> (s: String)
    requires
        field_ready(text@, spaces as int, 0),
    ensures
        s@ == text@ + field_padding(text@, spaces as int, 0),
{
    let pad = align_any(text, spaces);
    String::from_str(text).concat(pad.as_str())
}

/// `text`, then its padding, with the new residual.
pub fn align_left_and_get_diff(text: &str, spaces: i32, prev_diff: i32) -> (r: (String, i32))
    requires
        field_ready(text@, spaces as int, prev_diff as int),
    ensures
        r.0@ == text@ + field_padding(text@, spaces as int, prev_diff as int),
        r.1 == field_residual(text@, spaces as int, prev_diff as int),
{
    let (t, diff) = align_any_and_get_diff(text, spaces, prev_diff);
    (String::from_str(text).concat(t.as_str()), diff)
}

/// The padding of `text`, then `text`.
pub fn align_right(text: &str, spaces: i32) -> (s: String)
    requires
        field_ready(text@, spaces as int, 0),
    ensures
        s@ == field_padding(text@, spaces as int, 0) + text@,
{
    let pad = align_any(text, spaces);
    pad.concat(text)
}

/// The padding of `text`, then `text`, with the new residual.
pub fn align_right_and_get_diff(text: &str, spaces: i32, prev_diff: i32) -> (r: (String, i32))
    requires
        field_ready(text@, spaces as int, prev_diff as int),
    ensures
        r.0@ == field_padding(text@, spaces as int, prev_diff as int) + text@,
        r.1 == field_residual(text@, spaces as int, prev_diff as int),
{
    let (t, diff) = align_any_and_get_diff(text, spaces, prev_diff);
    (t.concat(text), diff)
}

/// The gap on the left of a centred text: half the whole gap, rounded towards zero.
pub open spec fn center_left(gap: int) -> int {
    if gap >= 0 {
        gap / 2
    } else {
        -((-gap) / 2)
    }
}

/// The gap on the right of a centred text: half the whole gap, rounded to the
/// nearest, halves away from zero.
pub open spec fn center_right(gap: int) -> int {
    if gap >= 0 {
        (gap + 1) / 2
    } else {
        -((-gap + 1) / 2)
    }
}

/// The text can be centred: it is one measurable line, and both halves of the gap
/// are within the range of the search.
pub open spec fn center_ready(text: Seq<char>, spaces: int) -> bool {
    &&& !text.contains('\n')
    &&& line_width(text) <= i32::MAX
    &&& i32::MIN <= field_gap(text, spaces) <= i32::MAX
    &&& gap_in_range(center_left(field_gap(text, spaces)))
    &&& gap_in_range(center_right(field_gap(text, spaces)))
}

/// `text` between two paddings that share the gap to the width of `spaces` space
/// glyphs.
pub fn align_center(text: &str, spaces: i32) -> (s: String)
    requires
        center_ready(text@, spaces as int),
    ensures
        s@ == gap_padding(center_left(field_gap(text@, spaces as int))) + text@ + gap_padding(
            center_right(field_gap(text@, spaces as int)),
        ),
{
    let textlen: i64 = get_line_width(text) as i64;
    let rest: i64 = (spaces as i64) * (SPACE_WIDTH as i64) - textlen;
    let left: i64 = if rest >= 0 {
        rest / 2
    } else {
        -((-rest) / 2)
    };
    let right: i64 = if rest >= 0 {
        (rest + 1) / 2
    } else {
        -((-rest + 1) / 2)
    };
    let before = get_specific_length_spaces(left as i32);
    let after = get_specific_length_spaces(right as i32);
    before.concat(text).concat(after.as_str())
}

/// One piece of an aligned row.
#[derive(Debug, Clone)]
pub enum AlignArg {
    /// Text taken as it is.
    Text(String),
    /// Text, then padding to the width of so many space glyphs.
    LeftAlign(String, i32),
    /// Padding to the width of so many space glyphs, then text.
    RightAlign(String, i32),
}

/// The piece can be laid out after a residual of `diff`.
pub open spec fn arg_ready(arg: AlignArg, diff: int) -> bool {
    match arg {
        AlignArg::Text(_) => true,
        AlignArg::LeftAlign(text, spaces) => diff > i32::MIN && field_ready(
            text@,
            spaces as int,
            -diff,
        ),
        AlignArg::RightAlign(text, spaces) => diff > i32::MIN && field_ready(
            text@,
            spaces as int,
            -diff,
        ),
    }
}

/// The characters that the piece adds to the row after a residual of `diff`.
pub open spec fn arg_text(arg: AlignArg, diff: int) -> Seq<char> {
    match arg {
        AlignArg::Text(text) => text@,
        AlignArg::LeftAlign(text, spaces) => text@ + field_padding(text@, spaces as int, -diff),
        AlignArg::RightAlign(text, spaces) => field_padding(text@, spaces as int, -diff) + text@,
    }
}

/// The residual after the piece.
pub open spec fn arg_residual(arg: AlignArg, diff: int) -> int {
    match arg {
        AlignArg::Text(_) => diff,
        AlignArg::LeftAlign(text, spaces) => field_residual(text@, spaces as int, -diff),
        AlignArg::RightAlign(text, spaces) => field_residual(text@, spaces as int, -diff),
    }
}

/// Every piece of the row can be laid out, each after the residual of the pieces
/// before it.
pub open spec fn row_ready(args: Seq<AlignArg>, diff: int) -> bool
    decreases args.len(),
{
    if args.len() == 0 {
        true
    } else {
        arg_ready(args[0], diff) && row_ready(args.drop_first(), arg_residual(args[0], diff))
    }
}

/// The row: each piece laid out after the residual of the pieces before it, so that
/// the rounding of one field is made up for in the next.
pub open spec fn row_text(args: Seq<AlignArg>, diff: int) -> Seq<char>
    decreases args.len(),
{
    if args.len() == 0 {
        Seq::empty()
    } else {
        arg_text(args[0], diff) + row_text(args.drop_first(), arg_residual(args[0], diff))
    }
}

/// Lays out a row of pieces.
#[verifier::rlimit(50)]
pub fn align_simple(args: &[AlignArg]) -> (s: String)
    requires
        row_ready(args@, 0),
    ensures
        s@ == row_text(args@, 0),
{
    let mut string = String::new();
    let mut diff: i32 = 0;
    let mut i: usize = 0;
    proof {
        assert(args@.skip(0) == args@);
    }
    while i < args.len()
        invariant
            i <= args@.len(),
            row_ready(args@.skip(i as int), diff as int),
            string@ + row_text(args@.skip(i as int), diff as int) == row_text(args@, 0),
        decreases args@.len() - i,
    {
        proof {
            assert(args@.skip(i as int)[0] == args@[i as int]);
            assert(args@.skip(i as int).drop_first() == args@.skip(i + 1));
        }
        let ghost before = string@;
        let ghost old_diff = diff as int;
        match &args[i] {
            AlignArg::Text(text) => {
                string.append(text.as_str());
            },
            AlignArg::LeftAlign(text, spaces) => {
                let (s, d) = align_left_and_get_diff(text.as_str(), *spaces, -diff);
                string.append(s.as_str());
                diff = d;
            },
            AlignArg::RightAlign(text, spaces) => {
                let (s, d) = align_right_and_get_diff(text.as_str(), *spaces, -diff);
                string.append(s.as_str());
                diff = d;
            },
        }
        proof {
            assert(string@ == before + arg_text(args@[i as int], old_diff));
            assert(before + arg_text(args@[i as int], old_diff) + row_text(
                args@.skip(i + 1),
                diff as int,
            ) == before + (arg_text(args@[i as int], old_diff) + row_text(
                args@.skip(i + 1),
                diff as int,
            )));
        }
        i = i + 1;
    }
    proof {
        assert(args@.skip(args@.len() as int).len() == 0);
        assert(string@ + Seq::<char>::empty() == string@);
    }
    string
}

/// Lays out a row of pieces, where every piece can be laid out.
#[verifier::rlimit(50)]
pub fn try_align_simple(args: &[AlignArg]) -> (r: Option<String>)
    ensures
        r is Some <==> row_ready(args@, 0),
        r is Some ==> r.unwrap()@ == row_text(args@, 0),
{
    let mut string = String::new();
    let mut diff: i32 = 0;
    let mut i: usize = 0;
    proof {
        assert(args@.skip(0) == args@);
    }
    while i < args.len()
        invariant
            i <= args@.len(),
            row_ready(args@.skip(i as int), diff as int) <==> row_ready(args@, 0),
            row_ready(args@, 0) ==> string@ + row_text(args@.skip(i as int), diff as int)
                == row_text(args@, 0),
        decreases args@.len() - i,
    {
        proof {
            assert(args@.skip(i as int)[0] == args@[i as int]);
            assert(args@.skip(i as int).drop_first() == args@.skip(i + 1));
        }
        let ghost before = string@;
        let ghost old_diff = diff as int;
        match &args[i] {
            AlignArg::Text(text) => {
                string.append(text.as_str());
            },
            AlignArg::LeftAlign(text, spaces) => {
                if diff == i32::MIN {
                    return None;
                }
                match try_align_any_and_get_diff(text.as_str(), *spaces, -diff) {
                    Some((s, d)) => {
                        string.append(text.as_str());
                        string.append(s.as_str());
                        diff = d;
                    },
                    None => {
                        return None;
                    },
                }
            },
            AlignArg::RightAlign(text, spaces) => {
                if diff == i32::MIN {
                    return None;
                }
                match try_align_any_and_get_diff(text.as_str(), *spaces, -diff) {
                    Some((s, d)) => {
                        string.append(s.as_str());
                        string.append(text.as_str());
                        diff = d;
                    },
                    None => {
                        return None;
                    },
                }
            },
        }
        proof {
            assert(string@ == before + arg_text(args@[i as int], old_diff));
            assert(before + arg_text(args@[i as int], old_diff) + row_text(
                args@.skip(i + 1),
                diff as int,
            ) == before + (arg_text(args@[i as int], old_diff) + row_text(
                args@.skip(i + 1),
                diff as int,
            )));
        }
        i = i + 1;
    }
    proof {
        assert(args@.skip(args@.len() as int).len() == 0);
        assert(string@ + Seq::<char>::empty() == string@);
    }
    Some(string)
}

/// The running width after the first `k` characters of `s`, each glyph counted with
/// the italic pad.
pub open spec fn running_width(s: Seq<char>, k: int) -> int {
    line_scan(s.take(k)).width + line_scan(s.take(k)).count * ITALIC_CHAR_HORIZON_PADDING
}

/// Each character of a line with the running width up to and including it; the
/// characters of a marker add nothing.
pub fn yield_chars_and_length(line: &str) -> (r: Vec<(char, i32)>)
    requires
        running_width(line@, line@.len() as int) <= i32::MAX,
    ensures
        r@.len() == line@.len(),
        forall|i: int|
            0 <= i < r@.len() ==> (#[trigger] r@[i]).0 == line@[i] && r@[i].1 == running_width(
                line@,
                i + 1,
            ),
{
    let font_widths = FontWidths::new();
    let chars = chars_of(line);
    let mut result: Vec<(char, i32)> = Vec::new();
    let mut width: i32 = 0;
    let mut bold = false;
    let mut fmt = false;
    let mut i: usize = 0;
    proof {
        assert(chars@.take(0) == Seq::<char>::empty());
        assert(chars@.take(chars@.len() as int) == chars@);
    }
    while i < chars.len()
        invariant
            i <= chars.len(),
            chars@ == line@,
            running_width(chars@, chars@.len() as int) <= i32::MAX,
            width == running_width(chars@, i as int),
            line_scan(chars@.take(i as int)).bold == bold,
            line_scan(chars@.take(i as int)).fmt == fmt,
            result@.len() == i,
            forall|j: int|
                0 <= j < i ==> (#[trigger] result@[j]).0 == chars@[j] && result@[j].1
                    == running_width(chars@, j + 1),
        decreases chars.len() - i,
    {
        proof {
            lemma_line_scan_monotone(chars@, i + 1);
            assert(chars@.take(chars@.len() as int) == chars@);
            assert(chars@.take(i + 1).drop_last() == chars@.take(i as int));
            assert(chars@.take(i + 1).last() == chars@[i as int]);
        }
        let ch = chars[i];
        if ch == SENTINEL {
            fmt = true;
        } else if fmt {
            fmt = false;
            if ch == 'l' {
                bold = true;
            } else if ch == 'r' {
                bold = false;
            }
        } else {
            width = width + (width_in(&font_widths, ch, bold) + ITALIC_CHAR_HORIZON_PADDING);
        }
        result.push((ch, width));
        i = i + 1;
    }
    result
}

} // verus!

//! Padding that brings several fields to one common width, exactly.

use vstd::prelude::*;
use crate::align::{
    get_char_width, get_line_width, glyph_width, initial_scan, lemma_line_scan_monotone,
    lemma_scan_concat, lemma_scan_marker, lemma_scan_spaces, line_measurable, line_scan,
    line_width, scan_from, SENTINEL, try_line_width,
};
use crate::define::{BOLD_SPACE_UNIT, CHAR_HORIZON_PADDING, PLAIN_SPACE_UNIT};
use crate::text::{chars_of, push_spaces, spaces, string_of, views};
use crate::utils::{
    is_split, lemma_solve_xy_complete, lemma_solve_xy_sound, solve_wide, solve_xy_spec, units_fit,
};

pub use crate::template::{pad_with_format, Padder};

verus! {

/// All the numbers are even, or all are odd.
pub open spec fn same_parity(c: Seq<i32>) -> bool {
    forall|i: int, j: int| 0 <= i < c.len() && 0 <= j < c.len() ==> c[i] % 2 == c[j] % 2
}

fn is_odd(n: i32) -> (r: bool)
    ensures
        r == (n % 2 != 0),
{
    let shifted: i64 = n as i64 + 0x8000_0000;
    shifted % 2 != 0
}

/// Whether all the numbers are even, or all are odd.
pub fn check_same_parity(c: &[i32]) -> (r: bool)
    ensures
        r == same_parity(c@),
{
    if c.len() == 0 {
        return true;
    }
    let p = is_odd(c[0]);
    let mut i: usize = 0;
    while i < c.len()
        invariant
            i <= c@.len(),
            c@.len() > 0,
            p == (c@[0] % 2 != 0),
            forall|j: int| 0 <= j < i ==> (#[trigger] c@[j] % 2 != 0) == p,
        decreases c@.len() - i,
    {
        if is_odd(c[i]) != p {
            return false;
        }
        i = i + 1;
    }
    true
}

/// A plain space takes 6 pixels in a line and a bold space 8: both even, two apart,
/// as the search of `solve_xy` asks.
pub proof fn lemma_space_units_fit()
    ensures
        PLAIN_SPACE_UNIT == 6,
        BOLD_SPACE_UNIT == 8,
        units_fit(PLAIN_SPACE_UNIT as int, BOLD_SPACE_UNIT as int),
{
}

/// The split of a gap of `gap` pixels into plain spaces of 6 pixels and bold spaces
/// of 8 pixels, if the search finds one.
#[verifier::inline]
pub open spec fn gap_split(gap: int) -> Option<(int, int)> {
    solve_xy_spec(6, 8, gap)
}

/// Every field can be brought to the width `target` by plain and bold spaces.
pub open spec fn splits_at(c: Seq<i32>, target: int) -> bool {
    forall|i: int| 0 <= i < c.len() ==> gap_split(target - #[trigger] c[i]) is Some
}

/// `target` is the least width to which every field can be brought.
pub open spec fn is_least_target(c: Seq<i32>, target: int) -> bool {
    &&& splits_at(c, target)
    &&& forall|t: int| t < target ==> !splits_at(c, t)
}

/// The least width to which every field can be brought.
pub open spec fn common_target(c: Seq<i32>) -> int {
    choose|target: int| is_least_target(c, target)
}

/// Every even gap of 12 pixels or more splits into plain and bold spaces.
pub proof fn lemma_wide_gap_splits(gap: int)
    requires
        gap >= 12,
        gap % 2 == 0,
    ensures
        gap_split(gap) is Some,
{
    let m = gap / 2;
    if m % 3 == 0 {
        lemma_solve_xy_complete(6, 8, gap, m / 3, 0);
    } else if m % 3 == 1 {
        lemma_solve_xy_complete(6, 8, gap, (m - 4) / 3, 1);
    } else {
        lemma_solve_xy_complete(6, 8, gap, (m - 8) / 3, 2);
    }
}

/// There is at most one least target.
pub proof fn lemma_least_target_unique(c: Seq<i32>, t1: int, t2: int)
    requires
        is_least_target(c, t1),
        is_least_target(c, t2),
    ensures
        t1 == t2,
{
}

fn split_all(c: &[i32], width: i64) -> (r: Option<Vec<(i32, i32)>>)
    requires
        forall|j: int| 0 <= j < c@.len() ==> #[trigger] c@[j] <= width,
        width <= i32::MAX + 12,
    ensures
        r is Some <==> splits_at(c@, width as int),
        r is Some ==> r.unwrap()@.len() == c@.len() && forall|j: int|
            0 <= j < c@.len() ==> gap_split(width - c@[j]) == Some(
                ((#[trigger] r.unwrap()@[j]).0 as int, r.unwrap()@[j].1 as int),
            ),
{
    let mut res: Vec<(i32, i32)> = Vec::new();
    let mut i: usize = 0;
    while i < c.len()
        invariant
            i <= c@.len(),
            forall|j: int| 0 <= j < c@.len() ==> #[trigger] c@[j] <= width,
            width <= i32::MAX + 12,
            res@.len() == i,
            forall|j: int|
                0 <= j < i ==> gap_split(width - c@[j]) == Some(
                    ((#[trigger] res@[j]).0 as int, res@[j].1 as int),
                ),
        decreases c@.len() - i,
    {
        let di: i64 = width - c[i] as i64;
        match solve_wide(PLAIN_SPACE_UNIT as i64, BOLD_SPACE_UNIT as i64, di) {
            Some((x, y)) => {
                res.push((x as i32, y as i32));
            },
            None => {
                proof {
                    assert(gap_split(width - c@[i as int]) is None);
                }
                return None;
            },
        }
        i = i + 1;
    }
    proof {
        assert forall|j: int| 0 <= j < c@.len() implies gap_split(width - #[trigger] c@[j]) is Some by {
            assert(gap_split(width - c@[j]) == Some((res@[j].0 as int, res@[j].1 as int)));
        }
    }
    Some(res)
}

/// No width below the widest field brings every field to it.
proof fn lemma_no_target_below(c: Seq<i32>, at: int, limit: int)
    requires
        0 <= at < c.len(),
        limit <= c[at],
    ensures
        forall|t: int| t < limit ==> !splits_at(c, t),
{
    assert forall|t: int| t < limit implies !splits_at(c, t) by {
        assert(gap_split(t - c[at]) is None);
    }
}

/// Where fields of one parity do not all split at a width of their parity, no width
/// up to the next of that parity brings every field to it.
proof fn lemma_next_target(c: Seq<i32>, at: int, width: int)
    requires
        0 <= at < c.len(),
        (width - c[at]) % 2 == 0,
        !splits_at(c, width),
        forall|t: int| t < width ==> !splits_at(c, t),
    ensures
        forall|t: int| t < width + 2 ==> !splits_at(c, t),
{
    assert forall|t: int| t < width + 2 implies !splits_at(c, t) by {
        if t == width + 1 {
            assert(gap_split(t - c[at]) is None);
        }
    }
}

/// Twelve pixels above the widest field, every field of its parity splits.
proof fn lemma_far_target_splits(c: Seq<i32>, at: int, width: int)
    requires
        0 <= at < c.len(),
        same_parity(c),
        forall|j: int| 0 <= j < c.len() ==> #[trigger] c[j] <= c[at],
        width == c[at] + 12,
    ensures
        splits_at(c, width),
{
    assert forall|j: int| 0 <= j < c.len() implies gap_split(width - #[trigger] c[j]) is Some by {
        assert(c[j] % 2 == c[at] % 2);
        lemma_wide_gap_splits(width - c[j]);
    }
}

/// The pairs that the search gives for a common width split the gaps.
proof fn lemma_pairs_split(c: Seq<i32>, width: int, pairs: Seq<(i32, i32)>)
    requires
        pairs.len() == c.len(),
        forall|j: int|
            0 <= j < c.len() ==> gap_split(width - c[j]) == Some(
                ((#[trigger] pairs[j]).0 as int, pairs[j].1 as int),
            ),
    ensures
        forall|j: int|
            0 <= j < c.len() ==> is_split(
                PLAIN_SPACE_UNIT as int,
                BOLD_SPACE_UNIT as int,
                width - c[j],
                (#[trigger] pairs[j]).0 as int,
                pairs[j].1 as int,
            ),
{
    assert forall|j: int| 0 <= j < c.len() implies is_split(
        PLAIN_SPACE_UNIT as int,
        BOLD_SPACE_UNIT as int,
        width - c[j],
        (#[trigger] pairs[j]).0 as int,
        pairs[j].1 as int,
    ) by {
        assert(gap_split(width - c[j]) == Some((pairs[j].0 as int, pairs[j].1 as int)));
        lemma_solve_xy_sound(6, 8, width - c[j]);
    }
}

/// Finds the least common width of fields that are `c` pixels wide, and for each
/// field the plain and bold spaces that bring it there. `None` for no field, and
/// for widths of which some are odd and some even, which no padding can reconcile.
#[verifier::rlimit(50)]
pub fn resolve(c: &[i32]) -> (r: Option<Vec<(i32, i32)>>)
    ensures
        r is None <==> c@.len() == 0 || !same_parity(c@),
        r is Some ==> {
            &&& is_least_target(c@, common_target(c@))
            &&& r.unwrap()@.len() == c@.len()
            &&& forall|i: int|
                0 <= i < c@.len() ==> gap_split(common_target(c@) - c@[i]) == Some(
                    ((#[trigger] r.unwrap()@[i]).0 as int, r.unwrap()@[i].1 as int),
                )
            &&& forall|i: int|
                0 <= i < c@.len() ==> is_split(
                    PLAIN_SPACE_UNIT as int,
                    BOLD_SPACE_UNIT as int,
                    common_target(c@) - c@[i],
                    (#[trigger] r.unwrap()@[i]).0 as int,
                    r.unwrap()@[i].1 as int,
                )
        },
{
    if c.len() == 0 {
        return None;
    }
    if !check_same_parity(c) {
        return None;
    }
    let mut widest: i32 = c[0];
    let mut k: usize = 1;
    let ghost mut at: int = 0;
    while k < c.len()
        invariant
            1 <= k <= c@.len(),
            forall|j: int| 0 <= j < k ==> #[trigger] c@[j] <= widest,
            0 <= at < k,
            c@[at] == widest,
        decreases c@.len() - k,
    {
        if c[k] > widest {
            widest = c[k];
            proof {
                at = k as int;
            }
        }
        k = k + 1;
    }
    let mut width: i64 = widest as i64;
    proof {
        lemma_no_target_below(c@, at, width as int);
    }
    loop
        invariant
            c@.len() > 0,
            same_parity(c@),
            0 <= at < c@.len(),
            c@[at] == widest,
            forall|j: int| 0 <= j < c@.len() ==> #[trigger] c@[j] <= widest,
            widest <= width <= widest + 12,
            (width - widest) % 2 == 0,
            forall|t: int| t < width ==> !splits_at(c@, t),
        decreases widest + 12 - width,
    {
        match split_all(c, width) {
            Some(res) => {
                proof {
                    assert(is_least_target(c@, width as int));
                    lemma_least_target_unique(c@, width as int, common_target(c@));
                    lemma_pairs_split(c@, width as int, res@);
                }
                return Some(res);
            },
            None => {},
        }
        proof {
            if width == widest + 12 {
                lemma_far_target_splits(c@, at, width as int);
            }
            lemma_next_target(c@, at, width as int);
        }
        width = width + 2;
    }
}

/// The widths of the lines.
pub open spec fn widths_of(lines: Seq<Seq<char>>) -> Seq<i32> {
    Seq::new(lines.len(), |i: int| line_width(lines[i]) as i32)
}

/// Every line is free of newlines and narrow enough to be measured.
pub open spec fn measurable(lines: Seq<Seq<char>>) -> bool {
    forall|i: int|
        0 <= i < lines.len() ==> !(#[trigger] lines[i]).contains('\n') && line_width(lines[i])
            <= i32::MAX
}

/// The padding after a field: a reset marker, the plain spaces, and the bold spaces
/// between a bold marker and a reset marker.
pub open spec fn pad_suffix(plain: int, bold: int) -> Seq<char> {
    seq![SENTINEL, 'r'] + (if plain > 0 {
        spaces(plain)
    } else {
        Seq::empty()
    }) + (if bold > 0 {
        seq![SENTINEL, 'l'] + spaces(bold) + seq![SENTINEL, 'r']
    } else {
        Seq::empty()
    })
}

/// The fields can be padded together: there is one at least, each is one
/// measurable line, and their widths are all even or all odd.
pub open spec fn batch_ready(lines: Seq<Seq<char>>) -> bool {
    &&& lines.len() > 0
    &&& measurable(lines)
    &&& same_parity(widths_of(lines))
}

/// The field `i` of the batch with its padding to the common width.
pub open spec fn padded_field(lines: Seq<Seq<char>>, i: int) -> Seq<char> {
    let c = widths_of(lines);
    let split = gap_split(common_target(c) - c[i]).unwrap();
    lines[i] + pad_suffix(split.0, split.1)
}

/// Every field of the batch with its padding to the common width.
pub open spec fn pad_all(lines: Seq<Seq<char>>) -> Seq<Seq<char>> {
    Seq::new(lines.len(), |i: int| padded_field(lines, i))
}

/// A line with at least one glyph, padded with `plain` plain and `bold` bold
/// spaces, is wider by 6 pixels for each plain and 8 for each bold space, and loses
/// the italic pad.
#[verifier::rlimit(50)]
pub proof fn lemma_padded_width(t: Seq<char>, plain: int, bold: int)
    requires
        plain >= 0,
        bold >= 0,
        line_scan(t).count >= 1,
    ensures
        line_width(t + pad_suffix(plain, bold)) == line_scan(t).width + (line_scan(t).count - 1)
            * CHAR_HORIZON_PADDING + PLAIN_SPACE_UNIT * plain + BOLD_SPACE_UNIT * bold,
        !line_scan(t).italic ==> line_width(t + pad_suffix(plain, bold)) == line_width(t)
            + PLAIN_SPACE_UNIT * plain + BOLD_SPACE_UNIT * bold,
{
    let st0 = line_scan(t);
    let reset = seq![SENTINEL, 'r'];
    let first = if plain > 0 {
        spaces(plain)
    } else {
        Seq::empty()
    };
    let second = if bold > 0 {
        seq![SENTINEL, 'l'] + spaces(bold) + reset
    } else {
        Seq::empty()
    };
    assert(t + pad_suffix(plain, bold) == ((t + reset) + first) + second);
    lemma_scan_concat(initial_scan(), t + reset + first, second);
    lemma_scan_concat(initial_scan(), t + reset, first);
    lemma_scan_concat(initial_scan(), t, reset);
    lemma_scan_marker(st0, 'r');
    let st1 = scan_from(st0, reset);
    assert(first =~= spaces(plain));
    lemma_scan_spaces(st1, plain);
    let st2 = scan_from(st1, first);
    assert(st2.width == st0.width + plain * 4 && st2.count == st0.count + plain);
    if bold > 0 {
        let lead = seq![SENTINEL, 'l'];
        lemma_scan_concat(st2, lead + spaces(bold), reset);
        lemma_scan_concat(st2, lead, spaces(bold));
        lemma_scan_marker(st2, 'l');
        let st3 = scan_from(st2, lead);
        lemma_scan_spaces(st3, bold);
        let st4 = scan_from(st3, spaces(bold));
        lemma_scan_marker(st4, 'r');
        assert(st4.width == st2.width + bold * 6);
    } else {
        assert(bold == 0);
    }
    let st5 = scan_from(st2, second);
    assert(st5.width == st0.width + plain * 4 + bold * 6);
    assert(st5.count == st0.count + plain + bold);
    assert(!st5.italic);
    assert(line_scan(t + pad_suffix(plain, bold)) == st5);
    assert((st5.count - 1) * 2 == (st0.count - 1) * 2 + plain * 2 + bold * 2);
}

/// Pads the fields to their least common width: each text is followed by a reset
/// marker, its plain spaces, and its bold spaces between a bold and a reset marker.
/// A field with a glyph that does not end in italic is then as wide as the target.
#[verifier::rlimit(50)]
pub fn pad(texts: &[String]) -> (r: Vec<String>)
    requires
        batch_ready(views(texts@)),
    ensures
        views(r@) == pad_all(views(texts@)),
        forall|i: int|
            0 <= i < texts@.len() && line_scan(texts@[i]@).count >= 1 && !line_scan(
                texts@[i]@,
            ).italic ==> line_width((#[trigger] r@[i])@) == common_target(
                widths_of(views(texts@)),
            ),
{
    let ghost lines = views(texts@);
    let mut cs: Vec<i32> = Vec::new();
    let mut i: usize = 0;
    while i < texts.len()
        invariant
            i <= texts@.len(),
            lines == views(texts@),
            measurable(lines),
            cs@.len() == i,
            forall|j: int| 0 <= j < i ==> #[trigger] cs@[j] == line_width(lines[j]),
        decreases texts@.len() - i,
    {
        proof {
            assert(lines[i as int] == texts@[i as int]@);
        }
        cs.push(get_line_width(texts[i].as_str()));
        i = i + 1;
    }
    assert(cs@ == widths_of(lines));
    let mut out: Vec<String> = Vec::new();
    match resolve(cs.as_slice()) {
        Some(res) => {
            let mut k: usize = 0;
            while k < texts.len()
                invariant
                    k <= texts@.len(),
                    lines == views(texts@),
                    cs@ == widths_of(lines),
                    measurable(lines),
                    res@.len() == texts@.len(),
                    out@.len() == k,
                    forall|j: int|
                        0 <= j < cs@.len() ==> gap_split(common_target(cs@) - cs@[j]) == Some(
                            ((#[trigger] res@[j]).0 as int, res@[j].1 as int),
                        ),
                    forall|j: int|
                        0 <= j < cs@.len() ==> is_split(
                            PLAIN_SPACE_UNIT as int,
                            BOLD_SPACE_UNIT as int,
                            common_target(cs@) - cs@[j],
                            (#[trigger] res@[j]).0 as int,
                            res@[j].1 as int,
                        ),
                    forall|j: int| 0 <= j < k ==> (#[trigger] out@[j])@ == padded_field(lines, j),
                    forall|j: int|
                        0 <= j < k && line_scan(lines[j]).count >= 1 && !line_scan(
                            lines[j],
                        ).italic ==> line_width((#[trigger] out@[j])@) == common_target(cs@),
                decreases texts@.len() - k,
            {
                let (ns, nb) = res[k];
                let mut line: Vec<char> = chars_of(texts[k].as_str());
                line.push(SENTINEL);
                line.push('r');
                if ns > 0 {
                    push_spaces(&mut line, ns);
                }
                if nb > 0 {
                    line.push(SENTINEL);
                    line.push('l');
                    push_spaces(&mut line, nb);
                    line.push(SENTINEL);
                    line.push('r');
                }
                proof {
                    let ghost_k = k as int;
                    assert(lines[ghost_k] == texts@[ghost_k]@);
                    assert(res@[ghost_k].0 == ns && res@[ghost_k].1 == nb);
                    assert(line@ == lines[ghost_k] + pad_suffix(ns as int, nb as int));
                    lemma_line_scan_monotone(lines[ghost_k], 0);
                    assert(cs@[ghost_k] == line_width(lines[ghost_k]));
                    if line_scan(lines[ghost_k]).count >= 1 {
                        lemma_padded_width(lines[ghost_k], ns as int, nb as int);
                    }
                }
                out.push(string_of(&line));
                k = k + 1;
            }
        },
        None => {},
    }
    proof {
        assert(views(out@) =~= pad_all(lines));
        assert forall|i: int|
            0 <= i < texts@.len() && line_scan(texts@[i]@).count >= 1 && !line_scan(
                texts@[i]@,
            ).italic implies line_width((#[trigger] out@[i])@) == common_target(
            widths_of(views(texts@)),
        ) by {
            assert(lines[i] == texts@[i]@);
        }
    }
    out
}

/// Pads the fields to their least common width, where they can be padded together.
pub fn try_pad(texts: &[String]) -> (r: Option<Vec<String>>)
    ensures
        r is Some <==> batch_ready(views(texts@)),
        r is Some ==> views(r.unwrap()@) == pad_all(views(texts@)),
{
    let ghost lines = views(texts@);
    if texts.len() == 0 {
        return None;
    }
    let mut cs: Vec<i32> = Vec::new();
    let mut i: usize = 0;
    while i < texts.len()
        invariant
            i <= texts@.len(),
            lines == views(texts@),
            cs@.len() == i,
            forall|j: int| 0 <= j < i ==> line_measurable(#[trigger] lines[j]),
            forall|j: int| 0 <= j < i ==> #[trigger] cs@[j] == line_width(lines[j]),
        decreases texts@.len() - i,
    {
        proof {
            assert(lines[i as int] == texts@[i as int]@);
        }
        match try_line_width(texts[i].as_str()) {
            Some(w) => {
                cs.push(w);
            },
            None => {
                proof {
                    assert(!line_measurable(lines[i as int]));
                }
                return None;
            },
        }
        i = i + 1;
    }
    proof {
        assert(measurable(lines));
        assert forall|j: int| 0 <= j < cs@.len() implies cs@[j] == widths_of(lines)[j] by {
            lemma_line_scan_monotone(lines[j], 0);
        }
        assert(cs@ =~= widths_of(lines));
    }
    if !check_same_parity(cs.as_slice()) {
        return None;
    }
    Some(pad(texts))
}

/// `s` written `n` times in a row.
pub open spec fn repeated(s: Seq<char>, n: int) -> Seq<char>
    decreases n,
{
    if n <= 0 {
        Seq::empty()
    } else {
        repeated(s, n - 1) + s
    }
}

/// How often the padder fits into `length` pixels: the quotient of the length and
/// the width of the padder, each with one gap added, rounded towards zero, or to the
/// nearest (halves up, and never below zero) where `round` is set.
pub open spec fn padder_count(length: int, padder: Seq<char>, round: bool) -> int {
    let total = length + CHAR_HORIZON_PADDING;
    let unit = (if padder.len() == 0 {
        0
    } else {
        glyph_width(padder[0], false)
    }) + CHAR_HORIZON_PADDING;
    if round {
        if total <= 0 {
            0
        } else {
            (2 * total + unit) / (2 * unit)
        }
    } else {
        if total >= 0 {
            total / unit
        } else {
            -((-total) / unit)
        }
    }
}

/// `padder` repeated as often as it fits into `length` pixels.
pub fn pad_with_length(length: i32, padder: &str, round: bool) -> (s: String)
    requires
        length + CHAR_HORIZON_PADDING <= i32::MAX,
        padder@.len() > 0 ==> padder_count(length as int, padder@, round) >= 0,
    ensures
        s@ == repeated(padder@, padder_count(length as int, padder@, round)),
{
    let total: i64 = length as i64 + CHAR_HORIZON_PADDING as i64;
    let unit: i64 = (get_char_width(padder, false) + CHAR_HORIZON_PADDING) as i64;
    let count: i64 = if round {
        if total <= 0 {
            0
        } else {
            (2 * total + unit) / (2 * unit)
        }
    } else {
        if total >= 0 {
            total / unit
        } else {
            -((-total) / unit)
        }
    };
    let mut s = String::new();
    if padder.is_empty() {
        proof {
            lemma_repeated_empty(padder@, count as int);
        }
        return s;
    }
    let mut i: i64 = 0;
    assert(s@ == repeated(padder@, 0));
    while i < count
        invariant
            0 <= i <= count,
            s@ == repeated(padder@, i as int),
        decreases count - i,
    {
        s.append(padder);
        i = i + 1;
    }
    s
}

/// Repeating the empty text gives the empty text.
pub proof fn lemma_repeated_empty(s: Seq<char>, n: int)
    requires
        s.len() == 0,
    ensures
        repeated(s, n) == Seq::<char>::empty(),
    decreases n,
{
    if n > 0 {
        lemma_repeated_empty(s, n - 1);
        assert(repeated(s, n - 1) + s == Seq::<char>::empty());
    }
}

} // verus!

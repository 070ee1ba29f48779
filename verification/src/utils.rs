//! Integer searches behind the padding solver.

use vstd::prelude::*;
use vstd::arithmetic::div_mod::lemma_fundamental_div_mod;
use vstd::arithmetic::div_mod::lemma_fundamental_div_mod_converse;

verus! {

/// Absolute value of an integer.
#[verifier::inline]
pub open spec fn abs_int(x: int) -> int {
    if x < 0 {
        -x
    } else {
        x
    }
}

/// The larger of two integers.
#[verifier::inline]
pub open spec fn max_int(a: int, b: int) -> int {
    if a >= b {
        a
    } else {
        b
    }
}

/// `q` is the floor of `n / d` once it is boxed in by two multiples of `d`.
pub proof fn lemma_div_unique(n: int, d: int, q: int)
    requires
        d > 0,
        q * d <= n < (q + 1) * d,
    ensures
        n / d == q,
{
    assert((q + 1) * d == q * d + d) by (nonlinear_arith);
    lemma_fundamental_div_mod_converse(n, d, q, n - q * d);
}

/// The floor of `n / d` is boxed in by two multiples of `d`.
pub proof fn lemma_div_bounds(n: int, d: int)
    requires
        d > 0,
    ensures
        (n / d) * d <= n < (n / d + 1) * d,
        n == (n / d) * d + n % d,
        0 <= n % d < d,
{
    lemma_fundamental_div_mod(n, d);
    assert((n / d + 1) * d == (n / d) * d + d) by (nonlinear_arith);
    assert(d * (n / d) == (n / d) * d) by (nonlinear_arith);
}

/// What `solve_xy` returns: the split of `c` into `x` units of `s` and `y` units of
/// `b`, taken at the smallest parameter `t` of the halved equation, if there is one.
#[verifier::inline]
pub open spec fn solve_xy_spec(s: int, b: int, c: int) -> Option<(int, int)> {
    if c < 0 || c % 2 != 0 {
        None
    } else {
        let m = c / 2;
        let a = s / 2;
        let bh = b / 2;
        let t_min = (m + a) / bh;
        let t_max = m / a;
        if t_min <= t_max {
            Some((bh * t_min - m, m - a * t_min))
        } else {
            None
        }
    }
}

/// `(x, y)` splits `c` into `x` units of `s` and `y` units of `b`, none negative.
pub open spec fn is_split(s: int, b: int, c: int, x: int, y: int) -> bool {
    x >= 0 && y >= 0 && s * x + b * y == c
}

/// The two units fit the halved search: both even, the second two more than the first.
pub open spec fn units_fit(s: int, b: int) -> bool {
    s >= 2 && s % 2 == 0 && b == s + 2
}

/// Where the units fit, what `solve_xy_spec` gives is a split of `c`, and the one
/// with the fewest units of `s`.
pub proof fn lemma_solve_xy_sound(s: int, b: int, c: int)
    requires
        units_fit(s, b),
        solve_xy_spec(s, b, c) is Some,
    ensures
        is_split(s, b, c, solve_xy_spec(s, b, c).unwrap().0, solve_xy_spec(s, b, c).unwrap().1),
        forall|x: int, y: int| is_split(s, b, c, x, y) ==> solve_xy_spec(s, b, c).unwrap().0 <= x,
{
    let m = c / 2;
    let a = s / 2;
    let bh = b / 2;
    let t = (m + a) / bh;
    let x0 = bh * t - m;
    let y0 = m - a * t;
    assert(bh == a + 1);
    assert(s == 2 * a && b == 2 * bh && c == 2 * m);
    lemma_div_bounds(m + a, bh);
    lemma_div_bounds(m, a);
    assert(t * bh == bh * t) by (nonlinear_arith);
    assert((t + 1) * bh == bh * t + bh) by (nonlinear_arith);
    assert(x0 >= 0);
    assert(a * t <= m) by (nonlinear_arith)
        requires
            t <= m / a,
            (m / a) * a <= m,
            a > 0,
    ;
    assert(s * x0 + b * y0 == c) by (nonlinear_arith)
        requires
            s == 2 * a,
            b == 2 * (a + 1),
            c == 2 * m,
            x0 == (a + 1) * t - m,
            y0 == m - a * t,
    ;
    assert forall|x: int, y: int| is_split(s, b, c, x, y) implies x0 <= x by {
        // x + y is a parameter of the halved equation, so it is at least t.
        let u = x + y;
        assert(a * x + bh * y == m) by (nonlinear_arith)
            requires
                s * x + b * y == c,
                s == 2 * a,
                b == 2 * bh,
                c == 2 * m,
        ;
        assert(x == bh * u - m) by (nonlinear_arith)
            requires
                a * x + bh * y == m,
                bh == a + 1,
                u == x + y,
        ;
        if u < t {
            assert(bh * u <= bh * t - bh) by (nonlinear_arith)
                requires
                    u <= t - 1,
                    bh > 0,
            ;
            assert(false);
        }
        assert(bh * t <= bh * u) by (nonlinear_arith)
            requires
                t <= u,
                bh > 0,
        ;
    }
}

/// Where the units fit, `solve_xy_spec` finds a split whenever one exists.
pub proof fn lemma_solve_xy_complete(s: int, b: int, c: int, x: int, y: int)
    requires
        units_fit(s, b),
        is_split(s, b, c, x, y),
    ensures
        solve_xy_spec(s, b, c) is Some,
{
    let a = s / 2;
    let bh = b / 2;
    assert(s == 2 * a && b == 2 * bh && bh == a + 1);
    assert(c == 2 * (a * x + bh * y)) by (nonlinear_arith)
        requires
            s * x + b * y == c,
            s == 2 * a,
            b == 2 * bh,
    ;
    assert(c >= 0) by (nonlinear_arith)
        requires
            c == 2 * (a * x + bh * y),
            a > 0,
            bh > 0,
            x >= 0,
            y >= 0,
    ;
    let m = c / 2;
    assert(m == a * x + bh * y);
    let u = x + y;
    let t = (m + a) / bh;
    lemma_div_bounds(m + a, bh);
    lemma_div_bounds(m, a);
    // bh * u = m + x >= m, so t <= u; a * u = m - y <= m, so u <= m / a.
    assert(bh * u == m + x) by (nonlinear_arith)
        requires
            m == a * x + bh * y,
            bh == a + 1,
            u == x + y,
    ;
    assert(a * u == m - y) by (nonlinear_arith)
        requires
            m == a * x + bh * y,
            bh == a + 1,
            u == x + y,
    ;
    if t > u {
        assert(t * bh >= (u + 1) * bh) by (nonlinear_arith)
            requires
                t >= u + 1,
                bh > 0,
        ;
        assert((u + 1) * bh == bh * u + bh) by (nonlinear_arith);
        assert(false);
    }
    if u > m / a {
        assert(a * u >= (m / a + 1) * a) by (nonlinear_arith)
            requires
                u >= m / a + 1,
                a > 0,
        ;
        assert(false);
    }
}

/// Splits `c` pixels into `x` units of `s` and `y` units of `b`, by a search over the
/// halved equation. `None` where `c` is negative or odd, or where the search finds
/// no parameter; where the units fit (`units_fit`), that is exactly where no split
/// exists.
pub fn solve_xy(s: i32, b: i32, c: i32) -> (r: Option<(i32, i32)>)
    requires
        s >= 2,
        b >= 2,
    ensures
        r is Some <==> solve_xy_spec(s as int, b as int, c as int) is Some,
        r is Some ==> solve_xy_spec(s as int, b as int, c as int) == Some(
            (r.unwrap().0 as int, r.unwrap().1 as int),
        ),
        units_fit(s as int, b as int) ==> (r is Some <==> exists|x: int, y: int|
            is_split(s as int, b as int, c as int, x, y)),
        units_fit(s as int, b as int) && r is Some ==> is_split(
            s as int,
            b as int,
            c as int,
            r.unwrap().0 as int,
            r.unwrap().1 as int,
        ),
{
    proof {
        if units_fit(s as int, b as int) {
            if solve_xy_spec(s as int, b as int, c as int) is Some {
                lemma_solve_xy_sound(s as int, b as int, c as int);
            }
            assert forall|x: int, y: int| is_split(s as int, b as int, c as int, x, y) implies
                solve_xy_spec(s as int, b as int, c as int) is Some by {
                lemma_solve_xy_complete(s as int, b as int, c as int, x, y);
            }
        }
    }
    match solve_wide(s as i64, b as i64, c as i64) {
        Some((x, y)) => Some((x as i32, y as i32)),
        None => None,
    }
}

/// The search of `solve_xy` on wider integers, for targets beyond `i32`.
pub(crate) fn solve_wide(s: i64, b: i64, c: i64) -> (r: Option<(i64, i64)>)
    requires
        2 <= s <= i32::MAX,
        2 <= b <= i32::MAX,
        c <= 0x2_0000_0000,
    ensures
        r is Some <==> solve_xy_spec(s as int, b as int, c as int) is Some,
        r is Some ==> solve_xy_spec(s as int, b as int, c as int) == Some(
            (r.unwrap().0 as int, r.unwrap().1 as int),
        ),
        r is Some ==> -(c / 2) <= r.unwrap().0 <= s / 2 && 0 <= r.unwrap().1 <= c / 2,
{
    if c < 0 || c % 2 != 0 {
        return None;
    }
    let m: i64 = c / 2;
    let a: i64 = s / 2;
    let b_half: i64 = b / 2;
    let t_min: i64 = (m + a) / b_half;
    let t_max: i64 = m / a;
    if t_min <= t_max {
        proof {
            lemma_div_bounds(m + a, b_half as int);
            lemma_div_bounds(m as int, a as int);
            assert(b_half * t_min == t_min * b_half) by (nonlinear_arith);
            assert(0 <= a * t_min <= m) by (nonlinear_arith)
                requires
                    0 <= t_min <= t_max,
                    t_max * a <= m,
                    a > 0,
            ;
            assert(t_min >= 0) by (nonlinear_arith)
                requires
                    (t_min + 1) * b_half > m + a,
                    m + a >= 0,
                    b_half > 0,
            ;
        }
        let t: i64 = t_min;
        let x: i64 = b_half * t - m;
        let y: i64 = m - a * t;
        Some((x, y))
    } else {
        None
    }
}

/// Quotient of `n` by a positive `d`, rounded towards zero.
#[verifier::inline]
pub open spec fn trunc_div(n: int, d: int) -> int {
    if n >= 0 {
        n / d
    } else {
        -((-n) / d)
    }
}

/// Quotient of `n` by a positive `d`, rounded up.
#[verifier::inline]
pub open spec fn ceil_div(n: int, d: int) -> int {
    -((-n) / d)
}

/// Quotient of `n` by a positive `d`, rounded to the nearest integer, halves away
/// from zero.
#[verifier::inline]
pub open spec fn round_div(n: int, d: int) -> int {
    if n >= 0 {
        (2 * n + d) / (2 * d)
    } else {
        -((2 * (-n) + d) / (2 * d))
    }
}

/// A count that is negative counts as zero.
#[verifier::inline]
pub open spec fn clamp_zero(y: int) -> int {
    if y < 0 {
        0
    } else {
        y
    }
}

/// How far `x` units of `a` and `y` units of `b` overshoot the target `c`.
pub open spec fn residual(a: int, b: int, c: int, p: (int, int)) -> int {
    p.0 * a + p.1 * b - c
}

/// The four counts of `b` that the search tries beside `x` units of `a`: none, and
/// the ideal count `(c - x * a) / b` rounded down, up and to the nearest.
pub open spec fn column(a: int, b: int, c: int, x: int) -> Seq<(int, int)> {
    let n = c - x * a;
    seq![
        (x, 0int),
        (x, clamp_zero(n / b)),
        (x, clamp_zero(ceil_div(n, b))),
        (x, clamp_zero(round_div(n, b))),
    ]
}

/// The pairs tried for `x` from 1 to `n`, in the order of the search.
pub open spec fn candidates(a: int, b: int, c: int, n: nat) -> Seq<(int, int)>
    decreases n,
{
    if n == 0 {
        Seq::empty()
    } else {
        candidates(a, b, c, (n - 1) as nat) + column(a, b, c, n as int)
    }
}

/// The largest `x` that the search tries.
#[verifier::inline]
pub open spec fn search_bound(a: int, b: int, c: int) -> int {
    trunc_div(c + max_int(a, b), a) + 2
}

/// Every pair that `find_closest` tries, in order.
pub open spec fn closest_candidates(a: int, b: int, c: int) -> Seq<(int, int)> {
    let n = search_bound(a, b, c);
    if n < 1 {
        Seq::empty()
    } else {
        candidates(a, b, c, n as nat)
    }
}

/// The least absolute residual among the pairs of `s` (0 for no pair).
pub open spec fn min_abs_residual(a: int, b: int, c: int, s: Seq<(int, int)>) -> int
    decreases s.len(),
{
    if s.len() == 0 {
        0
    } else if s.len() == 1 {
        abs_int(residual(a, b, c, s[0]))
    } else {
        let m = min_abs_residual(a, b, c, s.drop_last());
        let r = abs_int(residual(a, b, c, s.last()));
        if r < m {
            r
        } else {
            m
        }
    }
}

/// The pairs of `s` whose absolute residual is `m`, in order, repeats kept.
pub open spec fn ties(a: int, b: int, c: int, s: Seq<(int, int)>, m: int) -> Seq<(int, int)>
    decreases s.len(),
{
    if s.len() == 0 {
        Seq::empty()
    } else {
        let r = ties(a, b, c, s.drop_last(), m);
        if abs_int(residual(a, b, c, s.last())) == m {
            r.push(s.last())
        } else {
            r
        }
    }
}

/// A stored triple `(x, y, total)` stands for the pair `p`.
pub open spec fn triple_matches(t: (i32, i32, i32), a: int, b: int, p: (int, int)) -> bool {
    t.0 == p.0 && t.1 == p.1 && t.2 == p.0 * a + p.1 * b
}

/// The stored triples stand for the pairs, one for one.
pub open spec fn triples_match(v: Seq<(i32, i32, i32)>, a: int, b: int, pairs: Seq<(int, int)>) -> bool {
    &&& v.len() == pairs.len()
    &&& forall|i: int| 0 <= i < v.len() ==> triple_matches(#[trigger] v[i], a, b, pairs[i])
}

/// No pair of `s` has an absolute residual below the least one.
pub proof fn lemma_min_is_lower_bound(a: int, b: int, c: int, s: Seq<(int, int)>, i: int)
    requires
        0 <= i < s.len(),
    ensures
        min_abs_residual(a, b, c, s) <= abs_int(residual(a, b, c, s[i])),
    decreases s.len(),
{
    if s.len() > 1 {
        if i < s.len() - 1 {
            lemma_min_is_lower_bound(a, b, c, s.drop_last(), i);
        }
    }
}

/// No pair is kept at a residual below the least one.
proof fn lemma_ties_empty(a: int, b: int, c: int, s: Seq<(int, int)>, m: int)
    requires
        s.len() == 0 || m < min_abs_residual(a, b, c, s),
    ensures
        ties(a, b, c, s, m).len() == 0,
    decreases s.len(),
{
    if s.len() > 1 {
        lemma_ties_empty(a, b, c, s.drop_last(), m);
    } else if s.len() == 1 {
        reveal_with_fuel(ties, 2);
    }
}

/// Bounds on the counts of one column of the search.
#[verifier::rlimit(50)]
proof fn lemma_column_bounds(a: int, b: int, c: int, x: int)
    requires
        b > 0,
    ensures
        forall|k: int|
            0 <= k < 4 ==> {
                let p = #[trigger] column(a, b, c, x)[k];
                &&& p.0 == x
                &&& 0 <= p.1
                &&& 0 <= p.1 * b <= max_int(0, c - x * a + b)
                &&& p.1 <= max_int(0, c - x * a + b)
            },
{
    let n = c - x * a;
    lemma_div_bounds(n, b);
    lemma_div_bounds(-n, b);
    let fl = n / b;
    let g = (-n) / b;
    let ce = -g;
    assert((-g) * b == -(g * b)) by (nonlinear_arith);
    assert((g + 1) * b == g * b + b) by (nonlinear_arith);
    assert((fl + 1) * b == fl * b + b) by (nonlinear_arith);
    let yf = clamp_zero(fl);
    let yc = clamp_zero(ce);
    let yr = clamp_zero(round_div(n, b));
    if n >= 0 {
        lemma_div_bounds(2 * n + b, 2 * b);
        let rd = (2 * n + b) / (2 * b);
        assert(rd * (2 * b) == 2 * (rd * b)) by (nonlinear_arith);
        assert(fl >= 0) by (nonlinear_arith)
            requires
                (fl + 1) * b > 0,
                b > 0,
        ;
        assert(rd >= 0) by (nonlinear_arith)
            requires
                (rd + 1) * (2 * b) > 0,
                b > 0,
        ;
        assert(ce >= 0) by (nonlinear_arith)
            requires
                ce * b >= n,
                n >= 0,
                b > 0,
        ;
    } else {
        lemma_div_bounds(2 * (-n) + b, 2 * b);
        let rd = (2 * (-n) + b) / (2 * b);
        assert(rd >= 0) by (nonlinear_arith)
            requires
                (rd + 1) * (2 * b) > 0,
                b > 0,
        ;
        assert(fl < 0) by (nonlinear_arith)
            requires
                fl * b <= n,
                n < 0,
                b > 0,
        ;
        assert(g >= 0) by (nonlinear_arith)
            requires
                (g + 1) * b > 0,
                b > 0,
        ;
        assert(yf == 0 && yc == 0 && yr == 0);
    }
    assert(yf * b >= 0 && yc * b >= 0 && yr * b >= 0) by (nonlinear_arith)
        requires
            yf >= 0,
            yc >= 0,
            yr >= 0,
            b > 0,
    ;
    assert(yf <= yf * b && yc <= yc * b && yr <= yr * b) by (nonlinear_arith)
        requires
            yf >= 0,
            yc >= 0,
            yr >= 0,
            b > 0,
    ;
    assert(0int * b == 0);
    let col = column(a, b, c, x);
    assert(col[0] == (x, 0int));
    assert(col[1] == (x, yf));
    assert(col[2] == (x, yc));
    assert(col[3] == (x, yr));
}

/// The pairs of the column of `x` stand in the list of candidates, four by four.
pub proof fn lemma_candidates_index(a: int, b: int, c: int, n: nat, x: int, k: int)
    requires
        1 <= x <= n,
        0 <= k < 4,
    ensures
        candidates(a, b, c, n).len() == 4 * n,
        candidates(a, b, c, n)[4 * (x - 1) + k] == column(a, b, c, x)[k],
    decreases n,
{
    lemma_candidates_len(a, b, c, n);
    lemma_candidates_len(a, b, c, (n - 1) as nat);
    if x < n {
        lemma_candidates_index(a, b, c, (n - 1) as nat, x, k);
    }
}

/// Each `x` adds four candidates.
pub proof fn lemma_candidates_len(a: int, b: int, c: int, n: nat)
    ensures
        candidates(a, b, c, n).len() == 4 * n,
    decreases n,
{
    if n > 0 {
        lemma_candidates_len(a, b, c, (n - 1) as nat);
    }
}

/// The least absolute residual is not negative.
pub proof fn lemma_min_nonnegative(a: int, b: int, c: int, s: Seq<(int, int)>)
    ensures
        min_abs_residual(a, b, c, s) >= 0,
    decreases s.len(),
{
    if s.len() > 1 {
        lemma_min_nonnegative(a, b, c, s.drop_last());
    }
}

/// Beside `x` units of `a`, no count `y >= 0` of `b` comes closer to `c` than the
/// ideal count rounded down or rounded up.
#[verifier::rlimit(50)]
pub proof fn lemma_column_is_best(a: int, b: int, c: int, x: int, y: int)
    requires
        b > 0,
        y >= 0,
    ensures
        abs_int(residual(a, b, c, column(a, b, c, x)[1])) <= abs_int(residual(a, b, c, (x, y)))
            || abs_int(residual(a, b, c, column(a, b, c, x)[2])) <= abs_int(
            residual(a, b, c, (x, y)),
        ),
{
    let n = c - x * a;
    lemma_div_bounds(n, b);
    lemma_div_bounds(-n, b);
    let fl = n / b;
    let g = (-n) / b;
    let ce = -g;
    assert((-g) * b == -(g * b)) by (nonlinear_arith);
    assert((g + 1) * b == g * b + b) by (nonlinear_arith);
    assert((fl + 1) * b == fl * b + b) by (nonlinear_arith);
    let col = column(a, b, c, x);
    assert(col[1] == (x, clamp_zero(fl)));
    assert(col[2] == (x, clamp_zero(ce)));
    if n < 0 {
        assert(fl < 0) by (nonlinear_arith)
            requires
                fl * b <= n,
                n < 0,
                b > 0,
        ;
        assert(y * b >= 0) by (nonlinear_arith)
            requires
                y >= 0,
                b > 0,
        ;
        assert(0int * b == 0);
    } else {
        assert(fl >= 0) by (nonlinear_arith)
            requires
                (fl + 1) * b > 0,
                b > 0,
        ;
        if y <= fl {
            assert(y * b <= fl * b) by (nonlinear_arith)
                requires
                    y <= fl,
                    b > 0,
            ;
        } else {
            assert(ce >= 0) by (nonlinear_arith)
                requires
                    ce * b >= n,
                    n >= 0,
                    b > 0,
            ;
            assert(ce <= fl + 1) by (nonlinear_arith)
                requires
                    ce * b - b < n,
                    n < fl * b + b,
                    b > 0,
            ;
            assert(y * b >= ce * b) by (nonlinear_arith)
                requires
                    y >= ce,
                    b > 0,
            ;
        }
    }
}

/// No pair `(x, y)` with `x` inside the bound of the search and `y >= 0` comes
/// closer to `c` than the least residual among the pairs that the search tries.
pub proof fn lemma_closest_is_least(a: int, b: int, c: int, x: int, y: int)
    requires
        a > 0,
        b > 0,
        1 <= x <= search_bound(a, b, c),
        y >= 0,
    ensures
        min_abs_residual(a, b, c, closest_candidates(a, b, c)) <= abs_int(
            residual(a, b, c, (x, y)),
        ),
{
    let n = search_bound(a, b, c) as nat;
    let cands = closest_candidates(a, b, c);
    lemma_candidates_index(a, b, c, n, x, 1);
    lemma_candidates_index(a, b, c, n, x, 2);
    lemma_min_is_lower_bound(a, b, c, cands, 4 * (x - 1) + 1);
    lemma_min_is_lower_bound(a, b, c, cands, 4 * (x - 1) + 2);
    lemma_column_is_best(a, b, c, x, y);
}

/// Where `c` is `x` units of `a` and `y` units of `b` with `x >= 1` and `y >= 0`,
/// the search tries a pair that hits `c`: the least residual is 0.
pub proof fn lemma_closest_exact(a: int, b: int, c: int, x: int, y: int)
    requires
        a > 0,
        b > 0,
        x >= 1,
        y >= 0,
        x * a + y * b == c,
    ensures
        closest_candidates(a, b, c).len() > 0,
        min_abs_residual(a, b, c, closest_candidates(a, b, c)) == 0,
{
    assert(x * a >= a && y * b >= 0) by (nonlinear_arith)
        requires
            x >= 1,
            y >= 0,
            a > 0,
            b > 0,
    ;
    let top = c + max_int(a, b);
    lemma_div_bounds(top, a);
    assert(x <= top / a) by (nonlinear_arith)
        requires
            x * a <= top,
            top < (top / a + 1) * a,
            a > 0,
    ;
    lemma_candidates_len(a, b, c, search_bound(a, b, c) as nat);
    lemma_closest_is_least(a, b, c, x, y);
    lemma_min_nonnegative(a, b, c, closest_candidates(a, b, c));
}

fn floor_div_wide(n: i64, d: i64) -> (q: i64)
    requires
        0 < d <= 0x7fff_ffff,
        -0x10_0000_0000 <= n <= 0x10_0000_0000,
    ensures
        q == n / d,
        n >= 0 ==> 0 <= q <= n,
        n < 0 ==> n <= q < 0,
{
    if n >= 0 {
        proof {
            lemma_div_bounds(n as int, d as int);
            assert(0 <= n / d <= n) by (nonlinear_arith)
                requires
                    (n / d) * d <= n,
                    (n / d + 1) * d > n,
                    n >= 0,
                    d > 0,
            ;
        }
        n / d
    } else {
        let k: i64 = (-n + d - 1) / d;
        proof {
            lemma_div_bounds(-n + d - 1, d as int);
            assert((-k) * d == -(k * d)) by (nonlinear_arith);
            assert((-k + 1) * d == -(k * d) + d) by (nonlinear_arith);
            assert((k + 1) * d == k * d + d) by (nonlinear_arith);
            assert(k >= 0) by (nonlinear_arith)
                requires
                    (k + 1) * d > 0,
                    d > 0,
            ;
            assert(1 <= k <= -n) by (nonlinear_arith)
                requires
                    k * d <= -n + d - 1,
                    (k + 1) * d > -n + d - 1,
                    -n > 0,
                    d > 0,
                    k >= 0,
            ;
            lemma_div_unique(n as int, d as int, -k);
        }
        -k
    }
}

fn round_div_wide(n: i64, d: i64) -> (q: i64)
    requires
        0 < d <= 0x7fff_ffff,
        -0x10_0000_0000 <= n <= 0x10_0000_0000,
    ensures
        q == round_div(n as int, d as int),
{
    if n >= 0 {
        (2 * n + d) / (2 * d)
    } else {
        let k: i64 = (2 * (-n) + d) / (2 * d);
        proof {
            lemma_div_bounds(2 * (-n) + d, 2 * d);
            assert(0 <= k <= 2 * (-n) + d) by (nonlinear_arith)
                requires
                    k * (2 * d) <= 2 * (-n) + d,
                    (k + 1) * (2 * d) > 2 * (-n) + d,
                    2 * (-n) + d > 0,
                    d > 0,
            ;
        }
        -k
    }
}

fn trunc_div_wide(n: i64, d: i64) -> (q: i64)
    requires
        0 < d <= 0x7fff_ffff,
        -0x10_0000_0000 <= n <= 0x10_0000_0000,
    ensures
        q == trunc_div(n as int, d as int),
        n >= 0 ==> 0 <= q <= n,
        n < 0 ==> n <= q <= 0,
{
    if n >= 0 {
        proof {
            lemma_div_bounds(n as int, d as int);
            assert(0 <= n / d <= n) by (nonlinear_arith)
                requires
                    (n / d) * d <= n,
                    (n / d + 1) * d > n,
                    n >= 0,
                    d > 0,
            ;
        }
        n / d
    } else {
        let k: i64 = (-n) / d;
        proof {
            lemma_div_bounds(-n, d as int);
            assert(0 <= k <= -n) by (nonlinear_arith)
                requires
                    k * d <= -n,
                    (k + 1) * d > -n,
                    -n > 0,
                    d > 0,
            ;
        }
        -k
    }
}

/// The running state of the search for the closest pairs.
struct Scan {
    found: bool,
    min_diff: i64,
    final_diff: i64,
    solutions: Vec<(i32, i32, i32)>,
}

impl Scan {
    /// The state is what the search holds after it has tried the pairs of `seen`.
    spec fn tracks(&self, a: int, b: int, c: int, seen: Seq<(int, int)>) -> bool {
        &&& self.found == (seen.len() > 0)
        &&& triples_match(
            self.solutions@,
            a,
            b,
            ties(a, b, c, seen, min_abs_residual(a, b, c, seen)),
        )
        &&& self.found ==> {
            &&& self.min_diff == min_abs_residual(a, b, c, seen)
            &&& self.solutions@.len() > 0
            &&& self.final_diff == self.solutions@[0].2 - c
            &&& abs_int(self.final_diff as int) == self.min_diff
            &&& -0x7fff_ffff <= self.final_diff <= 0x7fff_ffff
        }
    }

    /// Tries one more pair.
    fn consider(&mut self, a: i64, b: i64, c: i64, x: i64, y: i64, Ghost(seen): Ghost<Seq<(int, int)>>)
        requires
            old(self).tracks(a as int, b as int, c as int, seen),
            -0x7fff_ffff <= x <= 0x7fff_ffff,
            -0x7fff_ffff <= y <= 0x7fff_ffff,
            -0x8000_0000 <= a <= 0x7fff_ffff,
            -0x8000_0000 <= b <= 0x7fff_ffff,
            -0x8000_0000 <= c <= 0x7fff_ffff,
            -0x7fff_ffff <= x * a <= 0x7fff_ffff,
            -0x7fff_ffff <= y * b <= 0x7fff_ffff,
            -0x7fff_ffff <= x * a + y * b <= 0x7fff_ffff,
            -0x7fff_ffff <= x * a + y * b - c <= 0x7fff_ffff,
        ensures
            final(self).tracks(a as int, b as int, c as int, seen.push((x as int, y as int))),
    {
        let total: i64 = x * a + y * b;
        let diff: i64 = total - c;
        let cur: i64 = if diff < 0 {
            -diff
        } else {
            diff
        };
        let ghost p = (x as int, y as int);
        let ghost seen2 = seen.push(p);
        let ghost m_old = min_abs_residual(a as int, b as int, c as int, seen);
        proof {
            assert(seen2.drop_last() == seen);
            assert(seen2.last() == p);
            assert(cur == abs_int(residual(a as int, b as int, c as int, p)));
        }
        if !self.found || cur < self.min_diff {
            proof {
                lemma_ties_empty(a as int, b as int, c as int, seen, cur as int);
                assert(ties(a as int, b as int, c as int, seen2, cur as int) == seq![p]);
            }
            self.found = true;
            self.min_diff = cur;
            self.final_diff = diff;
            let mut v: Vec<(i32, i32, i32)> = Vec::new();
            v.push((x as i32, y as i32, total as i32));
            self.solutions = v;
        } else if cur == self.min_diff {
            self.solutions.push((x as i32, y as i32, total as i32));
        }
    }
}

/// Searches the counts `x` of `a` from 1 to `search_bound(a, b, c)`, each with the
/// four counts of `b` of its column, for the pairs whose total `x * a + y * b` lies
/// closest to `c`. Returns every tried pair at the least distance, in the order of
/// the search and with repeats, each with its total, and the signed residual
/// `total - c` of the first. Where the bound is below 1 nothing is tried: the list
/// is empty and the residual is `i32::MAX`.
#[verifier::rlimit(50)]
pub fn find_closest(a: i32, b: i32, c: i32) -> (r: (Vec<(i32, i32, i32)>, i32))
    requires
        a > 0,
        b > 0,
        c + max_int(a as int, b as int) <= i32::MAX,
        search_bound(a as int, b as int, c as int) * a <= i32::MAX,
        search_bound(a as int, b as int, c as int) * a - c <= i32::MAX,
    ensures
        triples_match(
            r.0@,
            a as int,
            b as int,
            ties(
                a as int,
                b as int,
                c as int,
                closest_candidates(a as int, b as int, c as int),
                min_abs_residual(
                    a as int,
                    b as int,
                    c as int,
                    closest_candidates(a as int, b as int, c as int),
                ),
            ),
        ),
        closest_candidates(a as int, b as int, c as int).len() == 0 ==> r.0@.len() == 0 && r.1
            == i32::MAX,
        closest_candidates(a as int, b as int, c as int).len() > 0 ==> {
            &&& r.0@.len() > 0
            &&& r.1 == r.0@[0].2 - c
            &&& abs_int(r.1 as int) == min_abs_residual(
                a as int,
                b as int,
                c as int,
                closest_candidates(a as int, b as int, c as int),
            )
        },
        forall|x: int, y: int|
            1 <= x <= search_bound(a as int, b as int, c as int) && y >= 0 ==> abs_int(r.1 as int)
                <= abs_int(#[trigger] residual(a as int, b as int, c as int, (x, y))),
        forall|x: int, y: int|
            x >= 1 && y >= 0 && #[trigger] residual(a as int, b as int, c as int, (x, y)) == 0
                ==> r.1 == 0,
{
    proof {
        assert forall|x: int, y: int|
            1 <= x <= search_bound(a as int, b as int, c as int) && y >= 0 implies min_abs_residual(
            a as int,
            b as int,
            c as int,
            closest_candidates(a as int, b as int, c as int),
        ) <= abs_int(#[trigger] residual(a as int, b as int, c as int, (x, y))) by {
            lemma_closest_is_least(a as int, b as int, c as int, x, y);
        }
        assert forall|x: int, y: int|
            x >= 1 && y >= 0 && #[trigger] residual(
                a as int,
                b as int,
                c as int,
                (x, y),
            ) == 0 implies closest_candidates(a as int, b as int, c as int).len() > 0
            && min_abs_residual(
            a as int,
            b as int,
            c as int,
            closest_candidates(a as int, b as int, c as int),
        ) == 0 by {
            lemma_closest_exact(a as int, b as int, c as int, x, y);
        }
        if search_bound(a as int, b as int, c as int) >= 1 {
            lemma_candidates_len(
                a as int,
                b as int,
                c as int,
                search_bound(a as int, b as int, c as int) as nat,
            );
        }
    }
    let a64: i64 = a as i64;
    let b64: i64 = b as i64;
    let c64: i64 = c as i64;
    let max_ab: i64 = if a >= b {
        a64
    } else {
        b64
    };
    let x_max: i64 = trunc_div_wide(c64 + max_ab, a64) + 2;
    let mut st = Scan { found: false, min_diff: 0, final_diff: 0, solutions: Vec::new() };
    let mut x: i64 = 1;
    let ghost mut seen: Seq<(int, int)> = Seq::empty();
    proof {
        assert(ties(a as int, b as int, c as int, seen, 0) == Seq::<(int, int)>::empty());
    }
    while x <= x_max
        invariant
            a64 == a,
            b64 == b,
            c64 == c,
            a > 0,
            b > 0,
            c + max_int(a as int, b as int) <= i32::MAX,
            x_max == search_bound(a as int, b as int, c as int),
            x_max * a <= i32::MAX,
            x_max * a - c <= i32::MAX,
            x_max <= 0x1_0000_0002,
            1 <= x,
            x <= x_max + 1 || x == 1,
            seen == candidates(a as int, b as int, c as int, (x - 1) as nat),
            st.tracks(a as int, b as int, c as int, seen),
        decreases x_max + 1 - x,
    {
        proof {
            assert(0 < x * a <= x_max * a) by (nonlinear_arith)
                requires
                    1 <= x <= x_max,
                    a > 0,
            ;
            assert(x <= x * a) by (nonlinear_arith)
                requires
                    1 <= x,
                    a > 0,
            ;
            lemma_column_bounds(a as int, b as int, c as int, x as int);
        }
        let x_a: i64 = x * a64;
        let n: i64 = c64 - x_a;
        let fl: i64 = floor_div_wide(n, b64);
        let ng: i64 = floor_div_wide(-n, b64);
        let ce: i64 = -ng;
        let rd: i64 = round_div_wide(n, b64);
        let y_floor: i64 = if fl < 0 {
            0
        } else {
            fl
        };
        let y_ceil: i64 = if ce < 0 {
            0
        } else {
            ce
        };
        let y_round: i64 = if rd < 0 {
            0
        } else {
            rd
        };
        let ghost col = column(a as int, b as int, c as int, x as int);
        proof {
            assert(col[0] == (x as int, 0int));
            assert(col[1] == (x as int, y_floor as int));
            assert(col[2] == (x as int, y_ceil as int));
            assert(col[3] == (x as int, y_round as int));
            assert(0int * b == 0);
        }
        st.consider(a64, b64, c64, x, 0, Ghost(seen));
        proof {
            seen = seen.push(col[0]);
        }
        st.consider(a64, b64, c64, x, y_floor, Ghost(seen));
        proof {
            seen = seen.push(col[1]);
        }
        st.consider(a64, b64, c64, x, y_ceil, Ghost(seen));
        proof {
            seen = seen.push(col[2]);
        }
        st.consider(a64, b64, c64, x, y_round, Ghost(seen));
        proof {
            seen = seen.push(col[3]);
            assert(col.len() == 4);
            assert(seen == candidates(a as int, b as int, c as int, (x - 1) as nat) + col);
        }
        x = x + 1;
    }
    proof {
        assert(seen == closest_candidates(a as int, b as int, c as int));
    }
    let diff: i32 = if st.found {
        st.final_diff as i32
    } else {
        i32::MAX
    };
    (st.solutions, diff)
}


/// The quotient of `n` by `d`, which is not 0, rounded down.
#[verifier::inline]
pub open spec fn ratio_floor(n: int, d: int) -> int {
    if d > 0 {
        n / d
    } else {
        (-n) / (-d)
    }
}

/// The quotient of `n` by `d`, which is not 0, rounded up.
#[verifier::inline]
pub open spec fn ratio_ceil(n: int, d: int) -> int {
    if d > 0 {
        ceil_div(n, d)
    } else {
        ceil_div(-n, -d)
    }
}

/// The quotient of `n` by `d`, which is not 0, rounded to the nearest integer,
/// halves away from zero.
#[verifier::inline]
pub open spec fn ratio_round(n: int, d: int) -> int {
    if d > 0 {
        round_div(n, d)
    } else {
        round_div(-n, -d)
    }
}

/// How far to both sides of 0 `approximate_sum_optimized` lets `x` run: as far as
/// `c` needs with `a` alone or with `b` alone, and to 100 at least.
#[verifier::inline]
pub open spec fn approx_range(a: int, b: int, c: int) -> int {
    max_int(max_int(abs_int(c) / abs_int(a) + 1, abs_int(c) / abs_int(b) + 1), 100)
}

/// The three counts of `b` tried beside `x` units of `a`: the ideal count
/// `(c - x * a) / b` rounded down, up and to the nearest.
pub open spec fn approx_column(a: int, b: int, c: int, x: int) -> Seq<(int, int)> {
    let n = c - x * a;
    seq![(x, ratio_floor(n, b)), (x, ratio_ceil(n, b)), (x, ratio_round(n, b))]
}

/// The pair of no units at all, then the columns of the first `k` values of `x`
/// from `-r` on.
pub open spec fn approx_candidates(a: int, b: int, c: int, r: int, k: nat) -> Seq<(int, int)>
    decreases k,
{
    if k == 0 {
        seq![(0int, 0int)]
    } else {
        approx_candidates(a, b, c, r, (k - 1) as nat) + approx_column(a, b, c, k - 1 - r)
    }
}

/// Every pair that `approximate_sum_optimized` can try, in order.
pub open spec fn approx_all(a: int, b: int, c: int) -> Seq<(int, int)> {
    approx_candidates(a, b, c, approx_range(a, b, c), (2 * approx_range(a, b, c) + 1) as nat)
}

/// What `approximate_sum_optimized` returns: counts `x` and `y` and the distance of
/// `x * a + y * b` from `c`. With both units 0 the counts are 0; with one unit 0 the
/// other's count is the rounded quotient; else it is the first of the pairs tried
/// that comes closest to `c`.
#[verifier::inline]
pub open spec fn approximate_sum_spec(a: int, b: int, c: int) -> (int, int, int) {
    if a == 0 && b == 0 {
        (0, 0, abs_int(c))
    } else if a == 0 {
        (0, ratio_round(c, b), abs_int(ratio_round(c, b) * b - c))
    } else if b == 0 {
        (ratio_round(c, a), 0, abs_int(ratio_round(c, a) * a - c))
    } else {
        let s = approx_all(a, b, c);
        let m = min_abs_residual(a, b, c, s);
        (ties(a, b, c, s, m)[0].0, ties(a, b, c, s, m)[0].1, m)
    }
}

/// The arithmetic of `approximate_sum_optimized` stays within `i32`.
#[verifier::inline]
pub open spec fn approx_fits(a: int, b: int, c: int) -> bool {
    abs_int(a) + abs_int(b) + abs_int(c) + (if a != 0 && b != 0 {
        approx_range(a, b, c) * abs_int(a)
    } else {
        0
    }) <= i32::MAX
}

/// The pairs kept of two lists in a row are those kept of each.
proof fn lemma_ties_concat(a: int, b: int, c: int, p: Seq<(int, int)>, q: Seq<(int, int)>, m: int)
    ensures
        ties(a, b, c, p + q, m) == ties(a, b, c, p, m) + ties(a, b, c, q, m),
    decreases q.len(),
{
    if q.len() == 0 {
        assert(p + q == p);
        assert(ties(a, b, c, p, m) + Seq::<(int, int)>::empty() == ties(a, b, c, p, m));
    } else {
        assert((p + q).drop_last() == p + q.drop_last());
        assert((p + q).last() == q.last());
        lemma_ties_concat(a, b, c, p, q.drop_last(), m);
        let left = ties(a, b, c, p, m);
        let right = ties(a, b, c, q.drop_last(), m);
        assert((left + right).push(q.last()) == left + right.push(q.last()));
    }
}

/// Once a pair hits `c`, the least residual stays 0 whatever follows.
proof fn lemma_min_stays_zero(a: int, b: int, c: int, p: Seq<(int, int)>, q: Seq<(int, int)>)
    requires
        p.len() > 0,
        min_abs_residual(a, b, c, p) == 0,
    ensures
        min_abs_residual(a, b, c, p + q) == 0,
    decreases q.len(),
{
    if q.len() == 0 {
        assert(p + q == p);
    } else {
        assert((p + q).drop_last() == p + q.drop_last());
        assert((p + q).last() == q.last());
        lemma_min_stays_zero(a, b, c, p, q.drop_last());
    }
}

/// The pairs of fewer columns are the first of the pairs of more columns.
proof fn lemma_approx_prefix(a: int, b: int, c: int, r: int, k: nat, n: nat)
    requires
        k <= n,
    ensures
        approx_candidates(a, b, c, r, k).len() == 3 * k + 1,
        approx_candidates(a, b, c, r, n).len() == 3 * n + 1,
        approx_candidates(a, b, c, r, n).take((3 * k + 1) as int) == approx_candidates(a, b, c, r, k),
    decreases n,
{
    lemma_approx_len(a, b, c, r, k);
    lemma_approx_len(a, b, c, r, n);
    if k < n {
        lemma_approx_prefix(a, b, c, r, k, (n - 1) as nat);
        let shorter = approx_candidates(a, b, c, r, (n - 1) as nat);
        let column = approx_column(a, b, c, n - 1 - r);
        assert((shorter + column).take((3 * k + 1) as int) == shorter.take((3 * k + 1) as int));
    } else {
        assert(approx_candidates(a, b, c, r, n).take((3 * n + 1) as int) == approx_candidates(
            a,
            b,
            c,
            r,
            n,
        ));
    }
}

/// Each column adds three pairs.
proof fn lemma_approx_len(a: int, b: int, c: int, r: int, k: nat)
    ensures
        approx_candidates(a, b, c, r, k).len() == 3 * k + 1,
    decreases k,
{
    if k > 0 {
        lemma_approx_len(a, b, c, r, (k - 1) as nat);
    }
}

/// Where the pairs seen so far are the first of all pairs and one of them hits `c`,
/// the first that does is the first of all pairs that comes closest to `c`.
proof fn lemma_early_hit(a: int, b: int, c: int, seen: Seq<(int, int)>, all: Seq<(int, int)>)
    requires
        seen.len() > 0,
        seen.len() <= all.len(),
        all.take(seen.len() as int) == seen,
        min_abs_residual(a, b, c, seen) == 0,
        ties(a, b, c, seen, 0).len() > 0,
    ensures
        min_abs_residual(a, b, c, all) == 0,
        ties(a, b, c, all, 0)[0] == ties(a, b, c, seen, 0)[0],
{
    let rest = all.skip(seen.len() as int);
    assert(all == seen + rest);
    lemma_min_stays_zero(a, b, c, seen, rest);
    lemma_ties_concat(a, b, c, seen, rest, 0);
}

/// The rounded quotients of `n` by `b` lie within one `b` of `n`.
#[verifier::rlimit(50)]
proof fn lemma_ratio_bounds(n: int, b: int)
    requires
        b != 0,
    ensures
        abs_int(ratio_floor(n, b) * b - n) < abs_int(b),
        abs_int(ratio_ceil(n, b) * b - n) < abs_int(b),
        abs_int(ratio_round(n, b) * b - n) < abs_int(b),
        abs_int(ratio_floor(n, b)) <= abs_int(n) + 1,
        abs_int(ratio_ceil(n, b)) <= abs_int(n) + 1,
        abs_int(ratio_round(n, b)) <= abs_int(n) + 1,
{
    let d = abs_int(b);
    let m = if b > 0 {
        n
    } else {
        -n
    };
    lemma_div_bounds(m, d);
    lemma_div_bounds(-m, d);
    let fl = m / d;
    let g = (-m) / d;
    let ce = -g;
    assert((fl + 1) * d == fl * d + d) by (nonlinear_arith);
    assert((g + 1) * d == g * d + d) by (nonlinear_arith);
    assert((-g) * d == -(g * d)) by (nonlinear_arith);
    let rd = ratio_round(n, b);
    if m >= 0 {
        lemma_div_bounds(2 * m + d, 2 * d);
        let q = (2 * m + d) / (2 * d);
        assert(rd == q);
        assert(q * (2 * d) == 2 * (q * d)) by (nonlinear_arith);
        assert((q + 1) * (2 * d) == 2 * (q * d) + 2 * d) by (nonlinear_arith);
    } else {
        lemma_div_bounds(2 * (-m) + d, 2 * d);
        let q = (2 * (-m) + d) / (2 * d);
        assert(rd == -q);
        assert(q * (2 * d) == 2 * (q * d)) by (nonlinear_arith);
        assert((q + 1) * (2 * d) == 2 * (q * d) + 2 * d) by (nonlinear_arith);
        assert((-q) * d == -(q * d)) by (nonlinear_arith);
    }
    assert(abs_int(fl * d - m) < d);
    assert(abs_int(ce * d - m) < d);
    assert(abs_int(rd * d - m) < d);
    if b > 0 {
    } else {
        assert(fl * b == -(fl * d)) by (nonlinear_arith)
            requires
                b == -d,
        ;
        assert(ce * b == -(ce * d)) by (nonlinear_arith)
            requires
                b == -d,
        ;
        assert(rd * b == -(rd * d)) by (nonlinear_arith)
            requires
                b == -d,
        ;
    }
    lemma_quotient_small(fl, d, m);
    lemma_quotient_small(ce, d, m);
    lemma_quotient_small(rd, d, m);
}

/// A count whose multiple of `d` lies within `d` of `m` is no larger than `m` and
/// one.
proof fn lemma_quotient_small(q: int, d: int, m: int)
    requires
        d > 0,
        abs_int(q * d - m) < d,
    ensures
        abs_int(q) <= abs_int(m) + 1,
{
    if q > abs_int(m) + 1 {
        assert(q * d >= (abs_int(m) + 2) * d) by (nonlinear_arith)
            requires
                q >= abs_int(m) + 2,
                d > 0,
        ;
        assert((abs_int(m) + 2) * d >= abs_int(m) + 2 * d) by (nonlinear_arith)
            requires
                d >= 1,
                abs_int(m) >= 0,
        ;
    }
    if -q > abs_int(m) + 1 {
        assert((-q) * d >= (abs_int(m) + 2) * d) by (nonlinear_arith)
            requires
                -q >= abs_int(m) + 2,
                d > 0,
        ;
        assert((abs_int(m) + 2) * d >= abs_int(m) + 2 * d) by (nonlinear_arith)
            requires
                d >= 1,
                abs_int(m) >= 0,
        ;
        assert((-q) * d == -(q * d)) by (nonlinear_arith);
    }
}

fn magnitude(v: i32) -> (r: i64)
    ensures
        r == abs_int(v as int),
        0 <= r <= 0x8000_0000,
{
    if v < 0 {
        -(v as i64)
    } else {
        v as i64
    }
}

fn ratio_round_wide(n: i64, d: i64) -> (q: i64)
    requires
        d != 0,
        -0x7fff_ffff <= d <= 0x7fff_ffff,
        -0x8_0000_0000 <= n <= 0x8_0000_0000,
    ensures
        q == ratio_round(n as int, d as int),
{
    if d > 0 {
        round_div_wide(n, d)
    } else {
        round_div_wide(-n, -d)
    }
}

fn ratio_floor_wide(n: i64, d: i64) -> (q: i64)
    requires
        d != 0,
        -0x7fff_ffff <= d <= 0x7fff_ffff,
        -0x8_0000_0000 <= n <= 0x8_0000_0000,
    ensures
        q == ratio_floor(n as int, d as int),
{
    if d > 0 {
        floor_div_wide(n, d)
    } else {
        floor_div_wide(-n, -d)
    }
}

fn ratio_ceil_wide(n: i64, d: i64) -> (q: i64)
    requires
        d != 0,
        -0x7fff_ffff <= d <= 0x7fff_ffff,
        -0x8_0000_0000 <= n <= 0x8_0000_0000,
    ensures
        q == ratio_ceil(n as int, d as int),
{
    if d > 0 {
        -floor_div_wide(-n, d)
    } else {
        -floor_div_wide(n, -d)
    }
}

#[verifier::rlimit(50)]
fn consider_column(
    st: &mut Scan,
    a: i64,
    b: i64,
    c: i64,
    x: i64,
    Ghost(seen): Ghost<Seq<(int, int)>>,
    Ghost(range): Ghost<int>,
)
    requires
        old(st).tracks(a as int, b as int, c as int, seen),
        a != 0,
        b != 0,
        -0x7fff_ffff <= a <= 0x7fff_ffff,
        -0x7fff_ffff <= b <= 0x7fff_ffff,
        -0x7fff_ffff <= c <= 0x7fff_ffff,
        0 <= range,
        -range <= x <= range,
        range * abs_int(a as int) + abs_int(a as int) + abs_int(b as int) + abs_int(c as int)
            <= i32::MAX,
    ensures
        final(st).tracks(
            a as int,
            b as int,
            c as int,
            seen + approx_column(a as int, b as int, c as int, x as int),
        ),
{
    let ghost size_a = abs_int(a as int);
    proof {
        assert(-(range * size_a) <= x * a <= range * size_a) by (nonlinear_arith)
            requires
                -range <= x <= range,
                -size_a <= a <= size_a,
                size_a >= 0,
                range >= 0,
        ;
        assert(range <= range * size_a) by (nonlinear_arith)
            requires
                range >= 0,
                size_a >= 1,
        ;
        lemma_ratio_bounds(c - x * a, b as int);
    }
    let x_a: i64 = x * a;
    let n: i64 = c - x_a;
    let y_floor: i64 = ratio_floor_wide(n, b);
    let y_ceil: i64 = ratio_ceil_wide(n, b);
    let y_round: i64 = ratio_round_wide(n, b);
    let ghost col = approx_column(a as int, b as int, c as int, x as int);
    proof {
        assert(col[0] == (x as int, y_floor as int));
        assert(col[1] == (x as int, y_ceil as int));
        assert(col[2] == (x as int, y_round as int));
    }
    st.consider(a, b, c, x, y_floor, Ghost(seen));
    st.consider(a, b, c, x, y_ceil, Ghost(seen.push(col[0])));
    st.consider(a, b, c, x, y_round, Ghost(seen.push(col[0]).push(col[1])));
    proof {
        assert(col.len() == 3);
        assert(seen.push(col[0]).push(col[1]).push(col[2]) == seen + col);
    }
}

/// Looks for counts `x` and `y`, of either sign, that bring `x * a + y * b` close to
/// `c`: `x` runs from `-approx_range` to `approx_range`, each with the ideal count of
/// `b` rounded down, up and to the nearest, and the first pair that comes closest
/// wins; the pair of no units at all stands if none comes closer. Returns the pair
/// with its distance from `c`.
#[verifier::rlimit(50)]
pub fn approximate_sum_optimized(a: i32, b: i32, c: i32) -> (r: (i32, i32, i32))
    requires
        approx_fits(a as int, b as int, c as int),
    ensures
        (r.0 as int, r.1 as int, r.2 as int) == approximate_sum_spec(a as int, b as int, c as int),
{
    let a64: i64 = a as i64;
    let b64: i64 = b as i64;
    let c64: i64 = c as i64;
    let size_a: i64 = magnitude(a);
    let size_b: i64 = magnitude(b);
    let size_c: i64 = magnitude(c);
    if a == 0 && b == 0 {
        return (0, 0, size_c as i32);
    }
    if a == 0 {
        proof {
            lemma_ratio_bounds(c as int, b as int);
        }
        let y: i64 = ratio_round_wide(c64, b64);
        proof {
            assert(-0x7fff_ffff <= y * b64 <= 0x7fff_ffff);
        }
        let off: i64 = y * b64 - c64;
        let distance: i64 = if off < 0 {
            -off
        } else {
            off
        };
        return (0, y as i32, distance as i32);
    }
    if b == 0 {
        proof {
            lemma_ratio_bounds(c as int, a as int);
        }
        let x: i64 = ratio_round_wide(c64, a64);
        proof {
            assert(-0x7fff_ffff <= x * a64 <= 0x7fff_ffff);
        }
        let off: i64 = x * a64 - c64;
        let distance: i64 = if off < 0 {
            -off
        } else {
            off
        };
        return (x as i32, 0, distance as i32);
    }
    let by_a: i64 = size_c / size_a + 1;
    let by_b: i64 = size_c / size_b + 1;
    let larger: i64 = if by_a >= by_b {
        by_a
    } else {
        by_b
    };
    let max_range: i64 = if larger >= 100 {
        larger
    } else {
        100
    };
    let ghost all = approx_all(a as int, b as int, c as int);
    let ghost range = max_range as int;
    let ghost total: nat = (2 * range + 1) as nat;
    proof {
        assert(range * size_a >= 0) by (nonlinear_arith)
            requires
                range >= 0,
                size_a >= 0,
        ;
        assert(range <= range * size_a) by (nonlinear_arith)
            requires
                range >= 0,
                size_a >= 1,
        ;
    }
    let mut st = Scan { found: false, min_diff: 0, final_diff: 0, solutions: Vec::new() };
    let ghost mut seen: Seq<(int, int)> = Seq::empty();
    proof {
        assert(ties(a as int, b as int, c as int, seen, 0) == Seq::<(int, int)>::empty());
        assert(0 * a64 == 0 && 0 * b64 == 0);
    }
    st.consider(a64, b64, c64, 0, 0, Ghost(seen));
    proof {
        seen = seen.push((0int, 0int));
        assert(seen == approx_candidates(a as int, b as int, c as int, range, 0));
    }
    let mut k: i64 = 0;
    while k <= 2 * max_range
        invariant
            a64 == a,
            b64 == b,
            c64 == c,
            a != 0,
            b != 0,
            size_a == abs_int(a as int),
            size_b == abs_int(b as int),
            size_c == abs_int(c as int),
            range == max_range,
            range == approx_range(a as int, b as int, c as int),
            100 <= range,
            range * size_a + size_a + size_b + size_c <= i32::MAX,
            all == approx_all(a as int, b as int, c as int),
            total == 2 * range + 1,
            0 <= k <= 2 * max_range + 1,
            seen == approx_candidates(a as int, b as int, c as int, range, k as nat),
            st.tracks(a as int, b as int, c as int, seen),
            st.found,
        decreases 2 * max_range + 1 - k,
    {
        if st.min_diff == 0 {
            proof {
                lemma_approx_prefix(a as int, b as int, c as int, range, k as nat, total);
                lemma_early_hit(a as int, b as int, c as int, seen, all);
            }
            let (x, y, _) = st.solutions[0];
            return (x, y, 0);
        }
        let x: i64 = k - max_range;
        let ghost col = approx_column(a as int, b as int, c as int, x as int);
        consider_column(&mut st, a64, b64, c64, x, Ghost(seen), Ghost(range));
        proof {
            seen = seen + col;
        }
        k = k + 1;
    }
    proof {
        assert(seen == all);
    }
    let (x, y, _) = st.solutions[0];
    (x, y, st.min_diff as i32)
}

} // verus!

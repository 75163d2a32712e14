use vstd::prelude::*;

verus! {

/// Binomial coefficient `C(x, 2)`, zero below 2.
pub open spec fn spec_c2(x: int) -> int {
    if x >= 2 { x * (x - 1) / 2 } else { 0 }
}

/// Binomial coefficient `C(x, 3)`, zero below 3.
pub open spec fn spec_c3(x: int) -> int {
    if x >= 3 { x * (x - 1) * (x - 2) / 6 } else { 0 }
}

/// Number of points of the cube `[0, m]^3` whose coordinates add up to `q`
/// (inclusion-exclusion over the coordinates that exceed `m`).
pub open spec fn spec_shell_count(q: int, m: int) -> int {
    spec_c2(q + 2) - 3 * spec_c2(q - m + 1) + 3 * spec_c2(q - 2 * m) - spec_c2(q - 3 * m - 1)
}

/// Number of points of the cube `[0, m]^3` whose coordinates add up to at most `q`.
pub open spec fn spec_prefix(q: int, m: int) -> int {
    if q < 0 {
        0
    } else {
        spec_c3(q + 3) - 3 * spec_c3(q - m + 2) + 3 * spec_c3(q - 2 * m + 1) - spec_c3(q - 3 * m)
    }
}

/// Lowest red value of the shell `q`.
pub open spec fn row_lo(q: int, m: int) -> int {
    if q - 2 * m > 0 { q - 2 * m } else { 0 }
}

/// Highest red value of the shell `q`.
pub open spec fn row_hi(q: int, m: int) -> int {
    if q < m { q } else { m }
}

/// Lowest green value of the row with red `r` of the shell `q`.
pub open spec fn green_lo(q: int, r: int, m: int) -> int {
    if q - r - m > 0 { q - r - m } else { 0 }
}

/// Highest green value of the row with red `r` of the shell `q`.
pub open spec fn green_hi(q: int, r: int, m: int) -> int {
    if q - r < m { q - r } else { m }
}

/// Number of points of the row with red `r` of the shell `q`.
pub open spec fn row_size(q: int, r: int, m: int) -> int {
    green_hi(q, r, m) - green_lo(q, r, m) + 1
}

/// Number of points of the shell `q` whose red value is below `t`, in
/// closed form: the rows from the lowest red value up, each as long as its
/// range of green values.
pub open spec fn spec_row_prefix(q: int, t: int, m: int) -> int {
    let r0 = row_lo(q, m);
    let rmax = row_hi(q, m);
    if t <= r0 {
        0
    } else {
        let t = if t < rmax + 1 { t } else { rmax + 1 };
        if q <= m {
            t * (q + 1) - t * (t - 1) / 2
        } else if q <= 2 * m {
            let s = q - m;
            let b = if t < s { t } else { s };
            let part1 = if b > r0 { (b - r0) * (2 * m - q + 1) + (r0 + b - 1) * (b - r0) / 2 } else { 0 };
            let part2 = if t > s { (t - s) * (q + 1) - (s + t - 1) * (t - s) / 2 } else { 0 };
            part1 + part2
        } else {
            let n = t - r0;
            n * (n + 1) / 2
        }
    }
}

/// Rank of green value `g` within its row: rows at an even distance from the
/// lowest red value go up in green, the others down.
pub open spec fn spec_green_rank(q: int, r: int, g: int, m: int) -> int {
    if (r - row_lo(q, m)) % 2 == 0 { g - green_lo(q, r, m) } else { green_hi(q, r, m) - g }
}

/// Position of the point with red `r` and green `g` within the shell `q`.
pub open spec fn spec_local_index(q: int, r: int, g: int, m: int) -> int {
    spec_row_prefix(q, r, m) + spec_green_rank(q, r, g, m)
}

/// Position of the point `(r, g, b)` along the serpentine walk of the cube
/// `[0, m]^3`: shell by shell in the coordinate sum, row by row in red
/// within a shell, back and forth in green within a row.
pub open spec fn spec_serpentine_index(r: int, g: int, b: int, m: int) -> int {
    spec_prefix(r + g + b - 1, m) + spec_local_index(r + g + b, r, g, m)
}

/// Whether `(r, g, b)` lies in the cube `[0, m]^3`.
pub open spec fn in_cube(r: int, g: int, b: int, m: int) -> bool {
    0 <= r <= m && 0 <= g <= m && 0 <= b <= m
}

/// The smaller of two integers.
pub open spec fn min_int(a: int, b: int) -> int {
    if a < b { a } else { b }
}

/// `2 * C(x, 2) == x * (x - 1)` for every `x >= 0`.
proof fn lemma_c2_exact(x: int)
    requires
        x >= 0,
    ensures
        2 * spec_c2(x) == x * (x - 1),
    decreases x,
{
    if x >= 3 {
        lemma_c2_exact(x - 1);
        assert(x * (x - 1) == (x - 1) * (x - 2) + 2 * (x - 1)) by (nonlinear_arith);
    } else if x == 2 {
        assert(x * (x - 1) == 2) by (nonlinear_arith)
            requires
                x == 2,
        ;
    } else {
        assert(x * (x - 1) == 0) by (nonlinear_arith)
            requires
                0 <= x <= 1,
        ;
    }
}

/// `6 * C(x, 3) == x * (x - 1) * (x - 2)` for every `x >= 0`.
proof fn lemma_c3_exact(x: int)
    requires
        x >= 0,
    ensures
        6 * spec_c3(x) == x * (x - 1) * (x - 2),
    decreases x,
{
    if x >= 4 {
        lemma_c3_exact(x - 1);
        lemma_c2_exact(x - 1);
        assert(x * (x - 1) * (x - 2) == (x - 1) * (x - 2) * (x - 3) + 3 * ((x - 1) * (x - 2))) by (nonlinear_arith);
    } else if x == 3 {
        assert(x * (x - 1) * (x - 2) == 6) by (nonlinear_arith)
            requires
                x == 3,
        ;
    } else {
        assert(x * (x - 1) * (x - 2) == 0) by (nonlinear_arith)
            requires
                0 <= x <= 2,
        ;
    }
}

/// Pascal's rule: `C(x + 1, 3) == C(x, 3) + C(x, 2)`.
proof fn lemma_pascal(x: int)
    ensures
        spec_c3(x + 1) == spec_c3(x) + spec_c2(x),
{
    if x >= 0 {
        lemma_c3_exact(x + 1);
        lemma_c3_exact(x);
        lemma_c2_exact(x);
        assert((x + 1) * x * (x - 1) == x * (x - 1) * (x - 2) + 3 * (x * (x - 1))) by (nonlinear_arith);
    }
}

/// The shell count formula, extended to every integer.
spec fn prefix_formula(q: int, m: int) -> int {
    spec_c3(q + 3) - 3 * spec_c3(q - m + 2) + 3 * spec_c3(q - 2 * m + 1) - spec_c3(q - 3 * m)
}

/// The prefix counts grow by the shell counts.
pub proof fn lemma_prefix_step(q: int, m: int)
    requires
        0 <= q,
        0 <= m,
    ensures
        spec_prefix(q, m) == spec_prefix(q - 1, m) + spec_shell_count(q, m),
{
    lemma_pascal(q + 2);
    lemma_pascal(q - m + 1);
    lemma_pascal(q - 2 * m);
    lemma_pascal(q - 3 * m - 1);
    assert(spec_prefix(q - 1, m) == prefix_formula(q - 1, m));
}

/// The whole cube holds `(m + 1)^3` points.
pub proof fn lemma_prefix_total(m: int)
    requires
        0 <= m,
    ensures
        spec_prefix(3 * m, m) == (m + 1) * (m + 1) * (m + 1),
{
    lemma_c3_exact(3 * m + 3);
    lemma_c3_exact(2 * m + 2);
    lemma_c3_exact(m + 1);
    assert((3 * m + 3) * (3 * m + 2) * (3 * m + 1) - 3 * ((2 * m + 2) * (2 * m + 1) * (2 * m)) + 3 * ((m + 1) * m
        * (m - 1)) == 6 * ((m + 1) * (m + 1) * (m + 1))) by (nonlinear_arith);
}

/// Halves of consecutive products, in terms of `C(t, 2)`.
proof fn lemma_c2_facts(t: int)
    requires
        t >= 0,
    ensures
        t * (t - 1) / 2 == spec_c2(t),
        (t - 1) * t / 2 == spec_c2(t),
        (t + 1) * t / 2 == spec_c2(t + 1),
        t * (t + 1) / 2 == spec_c2(t + 1),
        spec_c2(t + 1) == spec_c2(t) + t,
{
    lemma_c2_exact(t);
    lemma_c2_exact(t + 1);
    assert((t - 1) * t == t * (t - 1) && t * (t + 1) == (t + 1) * t) by (nonlinear_arith);
    assert((t + 1) * t == t * (t - 1) + 2 * t) by (nonlinear_arith);
}

/// The sum of the integers in `[a, b)`, step by step.
proof fn lemma_ap_step(a: int, b: int)
    requires
        a <= b,
    ensures
        (a + b - 1) * (b - a) == 2 * (a * (b - a) + spec_c2(b - a)),
        (a + b - 1) * (b - a) / 2 == a * (b - a) + spec_c2(b - a),
        (a + b) * (b + 1 - a) / 2 == (a + b - 1) * (b - a) / 2 + b,
{
    let n = b - a;
    lemma_c2_exact(n);
    lemma_c2_exact(n + 1);
    lemma_c2_facts(n);
    assert((a + b - 1) * (b - a) == 2 * (a * n) + n * (n - 1)) by (nonlinear_arith)
        requires
            n == b - a,
    ;
    assert((a + b) * (b + 1 - a) == 2 * (a * (n + 1)) + (n + 1) * n) by (nonlinear_arith)
        requires
            n == b - a,
    ;
    assert(a * (n + 1) == a * n + a) by (nonlinear_arith);
}

/// The rows of a shell of the cube form a non-empty range.
pub proof fn lemma_row_bounds(q: int, m: int)
    requires
        0 <= m,
        0 <= q <= 3 * m,
    ensures
        row_lo(q, m) <= row_hi(q, m),
{
}

/// Going up one row adds the length of that row.
pub proof fn lemma_row_prefix_step(q: int, t: int, m: int)
    requires
        0 <= m,
        0 <= q <= 3 * m,
        row_lo(q, m) <= t <= row_hi(q, m),
    ensures
        spec_row_prefix(q, t + 1, m) == spec_row_prefix(q, t, m) + row_size(q, t, m),
{
    let r0 = row_lo(q, m);
    if q <= m {
        lemma_c2_facts(t);
        assert(t * (q + 1) + (q + 1) == (t + 1) * (q + 1)) by (nonlinear_arith);
        assert(row_size(q, t, m) == q - t + 1);
        assert(spec_row_prefix(q, t + 1, m) == (t + 1) * (q + 1) - (t + 1) * t / 2);
        if t == 0 {
            assert(t * (q + 1) == 0) by (nonlinear_arith)
                requires
                    t == 0,
            ;
        }
        assert(spec_row_prefix(q, t, m) == t * (q + 1) - spec_c2(t));
    } else if q <= 2 * m {
        let s = q - m;
        let w = 2 * m - q + 1;
        if t < s {
            lemma_c2_facts(t);
            assert(t * w + w == (t + 1) * w) by (nonlinear_arith);
            assert(row_size(q, t, m) == w + t);
            assert(spec_row_prefix(q, t + 1, m) == (t + 1) * w + t * (t + 1) / 2);
            if t == 0 {
                assert(t * w == 0) by (nonlinear_arith)
                    requires
                        t == 0,
                ;
            }
            assert(spec_row_prefix(q, t, m) == t * w + spec_c2(t));
        } else {
            lemma_ap_step(s, t);
            assert((t - s) * (q + 1) + (q + 1) == (t + 1 - s) * (q + 1)) by (nonlinear_arith);
            assert(row_size(q, t, m) == q - t + 1);
            let part1 = s * w + (s - 1) * s / 2;
            assert(spec_row_prefix(q, t + 1, m) == part1 + ((t + 1 - s) * (q + 1) - (s + t) * (t + 1 - s) / 2));
            if t == s {
                assert((t - s) * (q + 1) == 0 && (s + t - 1) * (t - s) == 0) by (nonlinear_arith)
                    requires
                        t == s,
                ;
            }
            assert(spec_row_prefix(q, t, m) == part1 + ((t - s) * (q + 1) - (s + t - 1) * (t - s) / 2));
        }
    } else {
        let n = t - r0;
        lemma_c2_facts(n + 1);
        lemma_c2_facts(n);
        assert((n + 1) * (n + 2) == (n + 2) * (n + 1)) by (nonlinear_arith);
        assert(row_size(q, t, m) == n + 1);
        assert(spec_row_prefix(q, t + 1, m) == (n + 1) * (n + 2) / 2);
        if t > r0 {
            assert(spec_row_prefix(q, t, m) == n * (n + 1) / 2);
        } else {
            assert(spec_row_prefix(q, t, m) == 0);
        }
    }
}

/// The rows of a shell hold all its points.
pub proof fn lemma_row_prefix_full(q: int, m: int)
    requires
        0 <= m,
        0 <= q <= 3 * m,
    ensures
        spec_row_prefix(q, row_hi(q, m) + 1, m) == spec_shell_count(q, m),
{
    if q <= m {
        lemma_c2_facts(q + 1);
        lemma_c2_exact(q + 1);
        assert((q + 1) * (q + 1) - (q + 1) == (q + 1) * q) by (nonlinear_arith);
    } else if q <= 2 * m {
        let s = q - m;
        let n = m + 1 - s;
        lemma_c2_facts(s);
        lemma_ap_step(s, m + 1);
        lemma_c2_exact(q + 2);
        lemma_c2_exact(q - m + 1);
        lemma_c2_exact(s);
        lemma_c2_exact(n);
        assert(2 * (s * (2 * m - q + 1)) + s * (s - 1) + 2 * (n * (q + 1)) - 2 * (s * n) - n * (n - 1) == (q + 2) * (q
            + 1) - 3 * ((q - m + 1) * (q - m))) by (nonlinear_arith)
            requires
                s == q - m,
                n == m + 1 - s,
        ;
    } else {
        let r0 = q - 2 * m;
        let n = m + 1 - r0;
        lemma_c2_facts(n);
        lemma_c2_exact(n + 1);
        lemma_c2_exact(q + 2);
        lemma_c2_exact(q - m + 1);
        lemma_c2_exact(q - 2 * m);
        assert((n + 1) * n == (q + 2) * (q + 1) - 3 * ((q - m + 1) * (q - m)) + 3 * ((q - 2 * m) * (q - 2 * m - 1)))
            by (nonlinear_arith)
            requires
                n == 3 * m - q + 1,
        ;
    }
}

/// Every row of a shell holds at least one point, so the row counts grow
/// at least as fast as the red value.
pub proof fn lemma_row_prefix_mono(q: int, t1: int, t2: int, m: int)
    requires
        0 <= m,
        0 <= q <= 3 * m,
        row_lo(q, m) <= t1 <= t2 <= row_hi(q, m) + 1,
    ensures
        spec_row_prefix(q, t2, m) - spec_row_prefix(q, t1, m) >= t2 - t1,
    decreases t2 - t1,
{
    if t1 < t2 {
        lemma_row_prefix_mono(q, t1, t2 - 1, m);
        lemma_row_prefix_step(q, t2 - 1, m);
    }
}

/// The number of points of a shell below any red value lies between zero
/// and the size of the shell.
pub proof fn lemma_row_prefix_bounds(q: int, t: int, m: int)
    requires
        0 <= m,
        0 <= q <= 3 * m,
    ensures
        0 <= spec_row_prefix(q, t, m) <= spec_shell_count(q, m),
{
    let r0 = row_lo(q, m);
    let rmax = row_hi(q, m);
    lemma_row_prefix_full(q, m);
    lemma_row_prefix_mono(q, r0, rmax + 1, m);
    if t > r0 {
        let tc = if t < rmax + 1 { t } else { rmax + 1 };
        assert(spec_row_prefix(q, t, m) == spec_row_prefix(q, tc, m));
        lemma_row_prefix_mono(q, r0, tc, m);
        lemma_row_prefix_mono(q, tc, rmax + 1, m);
    }
}

/// Every shell of the cube holds at least one point.
pub proof fn lemma_shell_positive(q: int, m: int)
    requires
        0 <= m,
        0 <= q <= 3 * m,
    ensures
        spec_shell_count(q, m) >= 1,
{
    lemma_row_prefix_full(q, m);
    lemma_row_prefix_mono(q, row_lo(q, m), row_hi(q, m) + 1, m);
}

/// The prefix counts grow at least as fast as the coordinate sum.
pub proof fn lemma_prefix_monotone(q1: int, q2: int, m: int)
    requires
        0 <= m,
        -1 <= q1 <= q2 <= 3 * m,
    ensures
        spec_prefix(q2, m) - spec_prefix(q1, m) >= q2 - q1,
    decreases q2 - q1,
{
    if q1 < q2 {
        lemma_prefix_monotone(q1, q2 - 1, m);
        lemma_prefix_step(q2, m);
        lemma_shell_positive(q2, m);
    }
}

/// Where a point of the cube stands in the walk: its shell, its row within
/// the shell, its green value within the row.
pub proof fn lemma_point_position(r: int, g: int, b: int, m: int)
    requires
        in_cube(r, g, b, m),
    ensures
        0 <= r + g + b <= 3 * m,
        row_lo(r + g + b, m) <= r <= row_hi(r + g + b, m),
        green_lo(r + g + b, r, m) <= g <= green_hi(r + g + b, r, m),
        0 <= spec_green_rank(r + g + b, r, g, m) < row_size(r + g + b, r, m),
{
}

/// A point of the cube stands within its shell of the walk, and so before
/// the end of the walk.
pub proof fn lemma_serpentine_index_bound(r: int, g: int, b: int, m: int)
    requires
        in_cube(r, g, b, m),
    ensures
        spec_prefix(r + g + b - 1, m) <= spec_serpentine_index(r, g, b, m) < spec_prefix(r + g + b, m),
        0 <= spec_serpentine_index(r, g, b, m) < (m + 1) * (m + 1) * (m + 1),
{
    let q = r + g + b;
    lemma_point_position(r, g, b, m);
    lemma_row_prefix_step(q, r, m);
    lemma_row_prefix_bounds(q, r, m);
    lemma_row_prefix_bounds(q, r + 1, m);
    lemma_prefix_step(q, m);
    lemma_prefix_monotone(-1, q - 1, m);
    lemma_prefix_monotone(q, 3 * m, m);
    lemma_prefix_total(m);
}

/// Two points of the cube at the same position of the walk are the same
/// point: the walk visits each point at most once.
pub proof fn lemma_serpentine_index_injective(r1: int, g1: int, b1: int, r2: int, g2: int, b2: int, m: int)
    requires
        in_cube(r1, g1, b1, m),
        in_cube(r2, g2, b2, m),
        spec_serpentine_index(r1, g1, b1, m) == spec_serpentine_index(r2, g2, b2, m),
    ensures
        r1 == r2,
        g1 == g2,
        b1 == b2,
{
    let q1 = r1 + g1 + b1;
    let q2 = r2 + g2 + b2;
    lemma_serpentine_index_bound(r1, g1, b1, m);
    lemma_serpentine_index_bound(r2, g2, b2, m);
    if q1 < q2 {
        lemma_prefix_monotone(q1, q2 - 1, m);
    } else if q2 < q1 {
        lemma_prefix_monotone(q2, q1 - 1, m);
    }
    assert(q1 == q2);
    let q = q1;
    lemma_point_position(r1, g1, b1, m);
    lemma_point_position(r2, g2, b2, m);
    lemma_row_prefix_step(q, r1, m);
    lemma_row_prefix_step(q, r2, m);
    if r1 < r2 {
        lemma_row_prefix_mono(q, r1 + 1, r2, m);
    } else if r2 < r1 {
        lemma_row_prefix_mono(q, r2 + 1, r1, m);
    }
    assert(r1 == r2);
}

/// The first shell at or above `q` whose prefix count exceeds `n`.
proof fn lemma_find_shell(n: int, m: int, q: int) -> (res: int)
    requires
        0 <= m,
        0 <= n < (m + 1) * (m + 1) * (m + 1),
        0 <= q <= 3 * m,
        spec_prefix(q - 1, m) <= n,
    ensures
        q <= res <= 3 * m,
        spec_prefix(res - 1, m) <= n < spec_prefix(res, m),
    decreases 3 * m - q,
{
    lemma_prefix_total(m);
    if n < spec_prefix(q, m) {
        q
    } else {
        lemma_find_shell(n, m, q + 1)
    }
}

/// The first row at or above `t` of the shell `q` whose row count exceeds `k`.
proof fn lemma_find_row(k: int, q: int, m: int, t: int) -> (res: int)
    requires
        0 <= m,
        0 <= q <= 3 * m,
        0 <= k < spec_shell_count(q, m),
        row_lo(q, m) <= t <= row_hi(q, m),
        spec_row_prefix(q, t, m) <= k,
    ensures
        t <= res <= row_hi(q, m),
        spec_row_prefix(q, res, m) <= k < spec_row_prefix(q, res + 1, m),
    decreases row_hi(q, m) - t,
{
    lemma_row_prefix_full(q, m);
    if k < spec_row_prefix(q, t + 1, m) {
        t
    } else {
        lemma_find_row(k, q, m, t + 1)
    }
}

/// Every position of the walk holds a point of the cube: the walk visits
/// all `(m + 1)^3` points.
pub proof fn lemma_serpentine_surjective(n: int, m: int)
    requires
        0 <= m,
        0 <= n < (m + 1) * (m + 1) * (m + 1),
    ensures
        exists|p: (int, int, int)| in_cube(p.0, p.1, p.2, m) && spec_serpentine_index(p.0, p.1, p.2, m) == n,
{
    let q = lemma_find_shell(n, m, 0);
    lemma_prefix_step(q, m);
    let k = n - spec_prefix(q - 1, m);
    lemma_row_bounds(q, m);
    let r0 = row_lo(q, m);
    let t = lemma_find_row(k, q, m, r0);
    lemma_row_prefix_step(q, t, m);
    let j = k - spec_row_prefix(q, t, m);
    let g = if (t - r0) % 2 == 0 { green_lo(q, t, m) + j } else { green_hi(q, t, m) - j };
    let b = q - t - g;
    let p = (t, g, b);
    assert(in_cube(p.0, p.1, p.2, m));
    assert(spec_green_rank(q, t, g, m) == j);
    assert(spec_serpentine_index(p.0, p.1, p.2, m) == n);
}

/// A point of the cube walked by the serpentine curve.
#[derive(Clone, Copy, Debug, PartialEq, Eq)]
pub struct Rgb {
    pub r: u16,
    pub g: u16,
    pub b: u16,
}

/// Largest cube side whose middle prefix count, at coordinate sum
/// `3 m / 2`, is exact in 64-bit arithmetic: `3 m / 2 + 3` stays within
/// [`C3_ARG_LIMIT`].
pub const MAX_CUBE_SIDE: u32 = 1_398_100;

/// Largest argument of [`c2`] whose product `x * (x - 1)` fits an `i64`.
pub const C2_ARG_LIMIT: i64 = 3_037_000_500;

/// Largest argument of [`c3`] whose product `x * (x - 1) * (x - 2)` fits an `i64`.
pub const C3_ARG_LIMIT: i64 = 2_097_153;

/// Binomial coefficient `C(x, 2)`, zero below 2.
pub fn c2(x: i64) -> (res: i64)
    requires
        x <= C2_ARG_LIMIT,
    ensures
        res == spec_c2(x as int),
{
    if x >= 2 {
        assert(0 <= x * (x - 1) <= 3_037_000_500 * 3_037_000_499) by (nonlinear_arith)
            requires
                2 <= x <= 3_037_000_500,
        ;
        x * (x - 1) / 2
    } else {
        0
    }
}

/// Binomial coefficient `C(x, 3)`, zero below 3.
pub fn c3(x: i64) -> (res: i64)
    requires
        x <= C3_ARG_LIMIT,
    ensures
        res == spec_c3(x as int),
{
    if x >= 3 {
        assert(0 <= x * (x - 1) <= 2_097_153 * 2_097_152) by (nonlinear_arith)
            requires
                3 <= x <= 2_097_153,
        ;
        assert(0 <= x * (x - 1) * (x - 2) <= 2_097_153 * 2_097_152 * 2_097_151) by (nonlinear_arith)
            requires
                3 <= x <= 2_097_153,
        ;
        x * (x - 1) * (x - 2) / 6
    } else {
        0
    }
}

proof fn lemma_c2_bounds(x: int)
    requires
        x <= C3_ARG_LIMIT,
    ensures
        0 <= spec_c2(x) <= C3_ARG_LIMIT * C3_ARG_LIMIT,
{
    if x >= 2 {
        assert(0 <= x * (x - 1) <= C3_ARG_LIMIT * C3_ARG_LIMIT) by (nonlinear_arith)
            requires
                2 <= x <= C3_ARG_LIMIT,
        ;
    }
}

proof fn lemma_c3_bounds(x: int)
    requires
        x <= C3_ARG_LIMIT,
    ensures
        0 <= spec_c3(x) <= 1_537_228_672_809_129_301,
{
    if x >= 3 {
        assert(0 <= x * (x - 1) * (x - 2) <= 2_097_153 * 2_097_152 * 2_097_151) by (nonlinear_arith)
            requires
                3 <= x <= 2_097_153,
        ;
    }
}

/// Number of points of the cube `[0, m]^3` whose coordinates add up to `q`.
pub fn shell_count(q: i64, m: i64) -> (res: i64)
    requires
        0 <= m <= MAX_CUBE_SIDE,
        -1 <= q <= 3 * m,
        q + 3 <= C3_ARG_LIMIT,
    ensures
        res == spec_shell_count(q as int, m as int),
{
    proof {
        lemma_c2_bounds(q + 2);
        lemma_c2_bounds(q - m + 1);
        lemma_c2_bounds(q - 2 * m);
        lemma_c2_bounds(q - 3 * m - 1);
    }
    c2(q + 2) - 3 * c2(q - m + 1) + 3 * c2(q - 2 * m) - c2(q - 3 * m - 1)
}

/// Number of points of the cube `[0, m]^3` whose coordinates add up to at most `q`.
pub fn prefix(q: i64, m: i64) -> (res: i64)
    requires
        0 <= m <= MAX_CUBE_SIDE,
        -1 <= q <= 3 * m,
        q + 3 <= C3_ARG_LIMIT,
    ensures
        res == spec_prefix(q as int, m as int),
{
    if q < 0 {
        return 0;
    }
    proof {
        lemma_c3_bounds(q + 3);
        lemma_c3_bounds(q - m + 2);
        lemma_c3_bounds(q - 2 * m + 1);
        lemma_c3_bounds(q - 3 * m);
    }
    c3(q + 3) - 3 * c3(q - m + 2) + 3 * c3(q - 2 * m + 1) - c3(q - 3 * m)
}

/// Coordinate sum of the shell that holds position `n` of the walk: the first
/// `q` in `[0, 3 m)` whose prefix count exceeds `n`, or `3 m` when there is none.
pub fn locate_q(n: u32, m: u32) -> (q: u32)
    requires
        m <= MAX_CUBE_SIDE,
    ensures
        q <= 3 * m,
        q <= 9000,
        spec_prefix(q - 1, m as int) <= n,
        q < 3 * m ==> spec_prefix(q as int, m as int) > n,
{
    let mut lo: u32 = 0;
    // Past coordinate sum 3000 the walk has passed more than `u32::MAX` points,
    // so the search never needs to look further.
    let mut hi: u32 = if m >= 3000 { 3000 } else { 3 * m };
    proof {
        if m >= 3000 {
            assert(spec_prefix(3000, m as int) == spec_c3(3003));
            assert(3003 * 3002 * 3001 == 27_054_033_006int) by (nonlinear_arith);
            assert(spec_c3(3003) == 4_509_005_501);
        }
    }
    while lo < hi
        invariant
            m <= MAX_CUBE_SIDE,
            lo <= hi <= 3 * m,
            hi <= 9000,
            spec_prefix(lo - 1, m as int) <= n,
            hi < 3 * m ==> spec_prefix(hi as int, m as int) > n,
        decreases hi - lo,
    {
        let mid = (lo + hi) / 2;
        if prefix(mid as i64, m as i64) > n as i64 {
            hi = mid;
        } else {
            lo = mid + 1;
        }
    }
    lo
}

/// Range of red values of the shell `q`: `(max(q - 2 m, 0), min(q, m))`.
pub fn row_range(q: u32, m: u32) -> (res: (u32, u32))
    requires
        2 * m <= u32::MAX,
    ensures
        res.0 == row_lo(q as int, m as int),
        res.1 == row_hi(q as int, m as int),
{
    (q.saturating_sub(2 * m), if q < m { q } else { m })
}

/// Number of points of the shell `q` whose red value is below `t`.
pub fn row_prefix(q: u32, t: u32, m: u32) -> (res: u32)
    requires
        m <= MAX_CUBE_SIDE,
        q <= 3 * m,
        spec_row_prefix(q as int, t as int, m as int) <= u32::MAX,
    ensures
        res == spec_row_prefix(q as int, t as int, m as int),
{
    let ghost (qi, ti, mi) = (q as int, t as int, m as int);
    let q = q as i64;
    let t = t as i64;
    let m = m as i64;
    let r0 = if q - 2 * m > 0 { q - 2 * m } else { 0 };
    let rmax = if q < m { q } else { m };

    if t <= r0 {
        return 0;
    }
    let t = if t < rmax + 1 { t } else { rmax + 1 };
    proof {
        lemma_row_prefix_bounds(qi, t as int, mi);
        assert(spec_row_prefix(qi, ti, mi) == spec_row_prefix(qi, t as int, mi));
    }

    if q <= m {
        assert(0 <= t * (q + 1) <= 4_200_000 * 4_200_000) by (nonlinear_arith)
            requires
                0 <= t <= 4_200_000,
                0 <= q + 1 <= 4_200_000,
        ;
        assert(0 <= t * (t - 1) <= 4_200_000 * 4_200_000) by (nonlinear_arith)
            requires
                1 <= t <= 4_200_000,
        ;
        return (t * (q + 1) - t * (t - 1) / 2) as u32;
    }

    if q <= 2 * m {
        let s = q - m;
        let mut out = 0i64;

        let a = r0;
        let b = if t < s { t } else { s };

        if b > a {
            let n = b - a;
            assert(0 <= n * (2 * m - q + 1) <= 4_200_000 * 4_200_000) by (nonlinear_arith)
                requires
                    0 <= n <= 4_200_000,
                    0 <= 2 * m - q + 1 <= 4_200_000,
            ;
            assert(0 <= (a + b - 1) * n <= 4_200_000 * 4_200_000) by (nonlinear_arith)
                requires
                    0 <= n <= 4_200_000,
                    0 <= a + b - 1 <= 4_200_000,
            ;
            out += n * (2 * m - q + 1) + (a + b - 1) * n / 2;
        }

        if t > s {
            let c = s;
            let d = t;
            let n = d - c;
            assert(0 <= n * (q + 1) <= 4_200_000 * 4_200_000) by (nonlinear_arith)
                requires
                    0 <= n <= 4_200_000,
                    0 <= q + 1 <= 4_200_000,
            ;
            assert(0 <= (c + d - 1) * n <= 4_200_000 * 4_200_000) by (nonlinear_arith)
                requires
                    0 <= n <= 4_200_000,
                    0 <= c + d - 1 <= 4_200_000,
            ;
            out += n * (q + 1) - (c + d - 1) * n / 2;
        }

        return out as u32;
    }

    let n = t - r0;
    assert(0 <= n * (n + 1) <= 4_200_000 * 4_200_001) by (nonlinear_arith)
        requires
            0 <= n <= 4_200_000,
    ;
    let out = n * (n + 1) / 2;
    out as u32
}

/// The point at position `r` of the shell `q` of the walk.
pub fn decode_base(q: u32, r: u32, m: u32) -> (res: Rgb)
    requires
        m <= MAX_CUBE_SIDE,
        q <= 3 * m,
        r < spec_shell_count(q as int, m as int),
        spec_shell_count(q as int, m as int) <= u32::MAX,
        min_int(q as int, m as int) <= u16::MAX,
    ensures
        in_cube(res.r as int, res.g as int, res.b as int, m as int),
        res.r + res.g + res.b == q,
        spec_local_index(q as int, res.r as int, res.g as int, m as int) == r,
{
    let ghost (qi, mi) = (q as int, m as int);
    let (r0, rmax) = row_range(q, m);
    proof {
        lemma_row_bounds(qi, mi);
        lemma_row_prefix_full(qi, mi);
    }
    let mut lo = r0;
    let mut hi = rmax;

    while lo < hi
        invariant
            m <= MAX_CUBE_SIDE,
            q <= 3 * m,
            r0 == row_lo(qi, mi),
            rmax == row_hi(qi, mi),
            qi == q,
            mi == m,
            spec_shell_count(qi, mi) <= u32::MAX,
            r0 <= lo <= hi <= rmax,
            spec_row_prefix(qi, lo as int, mi) <= r,
            r < spec_row_prefix(qi, hi + 1, mi),
        decreases hi - lo,
    {
        let sum = lo + hi;
        let mid = sum >> 1u32;
        assert(mid == sum / 2) by (bit_vector)
            requires
                mid == sum >> 1u32,
        ;
        proof {
            lemma_row_prefix_bounds(qi, mid + 1, mi);
        }
        if row_prefix(q, mid + 1, m) > r {
            hi = mid;
        } else {
            lo = mid + 1;
        }
    }

    let rr = lo;
    proof {
        lemma_row_prefix_step(qi, rr as int, mi);
        lemma_row_prefix_bounds(qi, rr as int, mi);
    }
    let before = row_prefix(q, rr, m);
    let j = r - before;

    let g0 = q.saturating_sub(rr + m);
    let g1 = if q - rr < m { q - rr } else { m };
    let parity = (rr - r0) & 1u32;
    let gap = rr - r0;
    assert(parity == gap % 2) by (bit_vector)
        requires
            parity == gap & 1u32,
    ;

    let gg = if parity == 0 { g0 + j } else { g1 - j };

    let bb = q - rr - gg;
    assert(rr <= min_int(qi, mi) && gg <= min_int(qi, mi) && bb <= min_int(qi, mi));

    Rgb { r: rr as u16, g: gg as u16, b: bb as u16 }
}

/// A shell of the cube has at most `(k + 1)^2` points, `k = min(q, m)`:
/// its rows, at most `k + 1` of them, hold at most `k + 1` points each.
proof fn lemma_row_prefix_square(q: int, t: int, m: int)
    requires
        0 <= m,
        0 <= q <= 3 * m,
        row_lo(q, m) <= t <= row_hi(q, m) + 1,
    ensures
        spec_row_prefix(q, t, m) <= (t - row_lo(q, m)) * (min_int(q, m) + 1),
    decreases t - row_lo(q, m),
{
    let k1 = min_int(q, m) + 1;
    if t > row_lo(q, m) {
        lemma_row_prefix_square(q, t - 1, m);
        lemma_row_prefix_step(q, t - 1, m);
        assert((t - 1 - row_lo(q, m)) * k1 + k1 == (t - row_lo(q, m)) * k1) by (nonlinear_arith);
    } else {
        assert(0 * k1 == 0) by (nonlinear_arith);
    }
}

/// Once the walk has passed fewer than `2^32` points before the shell `q`,
/// that shell holds fewer than `2^32` points, all with coordinates below `2^16`.
proof fn lemma_small_shell(q: int, m: int)
    requires
        0 <= m,
        0 <= q <= 3 * m,
        spec_prefix(q - 1, m) <= u32::MAX,
    ensures
        spec_shell_count(q, m) <= u32::MAX,
        min_int(q, m) <= u16::MAX,
{
    let k = min_int(q, m);
    lemma_row_prefix_full(q, m);
    lemma_row_prefix_square(q, row_hi(q, m) + 1, m);
    assert(row_hi(q, m) + 1 - row_lo(q, m) <= k + 1);
    assert(spec_shell_count(q, m) <= (k + 1) * (k + 1)) by (nonlinear_arith)
        requires
            spec_shell_count(q, m) <= (row_hi(q, m) + 1 - row_lo(q, m)) * (k + 1),
            0 <= row_hi(q, m) + 1 - row_lo(q, m) <= k + 1,
            k >= 0,
    ;
    lemma_prefix_monotone(k - 1, q - 1, m);
    assert(spec_prefix(k - 1, m) == spec_c3(k + 2));
    lemma_c3_exact(k + 2);
    if k >= 6 {
        assert(6 * ((k + 1) * (k + 1)) <= (k + 2) * (k + 1) * k) by (nonlinear_arith)
            requires
                k >= 6,
        ;
        assert((k + 1) * (k + 1) <= u32::MAX);
        assert(k <= u16::MAX) by (nonlinear_arith)
            requires
                (k + 1) * (k + 1) <= u32::MAX,
                k >= 0,
        ;
    } else {
        assert((k + 1) * (k + 1) <= 36) by (nonlinear_arith)
            requires
                0 <= k < 6,
        ;
    }
}

/// The point past the walk at `n`, for the first `m` positions past its
/// end: red `m`, green `m + k` and blue `m - k` at the `k`-th of them.
pub open spec fn past_end_point(n: int, m: int) -> (int, int, int) {
    let k = n + 1 - (m + 1) * (m + 1) * (m + 1);
    (m, m + k, m - k)
}

/// The point at position `n` of the serpentine walk of the cube `[0, m]^3`;
/// for the first `m` positions past the walk, the point that the last shell
/// extends to (see [`past_end_point`]).
pub fn decode_n(n: u32, m: u32) -> (res: Rgb)
    requires
        m <= MAX_CUBE_SIDE,
        n < (m + 1) * (m + 1) * (m + 1) + m,
    ensures
        n < (m + 1) * (m + 1) * (m + 1) ==> {
            &&& in_cube(res.r as int, res.g as int, res.b as int, m as int)
            &&& spec_serpentine_index(res.r as int, res.g as int, res.b as int, m as int) == n
        },
        n >= (m + 1) * (m + 1) * (m + 1) ==> (res.r as int, res.g as int, res.b as int) == past_end_point(
            n as int,
            m as int,
        ),
{
    let side = (m as u64) + 1;
    assert(side * side <= 1_398_101 * 1_398_101 && side * side * side <= 1_398_101 * 1_398_101 * 1_398_101)
        by (nonlinear_arith)
        requires
            1 <= side <= 1_398_101,
    ;
    let total = side * side * side;
    if (n as u64) >= total {
        assert(m <= 1624) by (nonlinear_arith)
            requires
                (m + 1) * (m + 1) * (m + 1) <= n,
                n <= u32::MAX,
        ;
        let k = n - (total as u32) + 1;
        return Rgb { r: m as u16, g: (m + k) as u16, b: (m - k) as u16 };
    }
    let q = locate_q(n, m);
    proof {
        lemma_prefix_total(m as int);
        lemma_prefix_step(q as int, m as int);
        lemma_prefix_monotone(-1, q - 1, m as int);
        lemma_small_shell(q as int, m as int);
    }
    let q_sub = (q as i32) - 1;
    let r = n - prefix(q_sub as i64, m as i64) as u32;
    decode_base(q, r, m)
}

/// Position of the point `p` along the serpentine walk of the cube `[0, m]^3`,
/// for a point whose position fits a `u32`.
pub fn encode_n(p: Rgb, m: u32) -> (res: u32)
    requires
        m <= MAX_CUBE_SIDE,
        in_cube(p.r as int, p.g as int, p.b as int, m as int),
        spec_serpentine_index(p.r as int, p.g as int, p.b as int, m as int) <= u32::MAX,
    ensures
        res == spec_serpentine_index(p.r as int, p.g as int, p.b as int, m as int),
{
    let q = p.r as u32 + p.g as u32 + p.b as u32;
    let ghost (qi, mi) = (q as int, m as int);
    let (r0, _rmax) = row_range(q, m);
    let rr = p.r as u32;
    let gg = p.g as u32;
    proof {
        lemma_point_position(p.r as int, p.g as int, p.b as int, mi);
        lemma_serpentine_index_bound(p.r as int, p.g as int, p.b as int, mi);
        lemma_row_prefix_bounds(qi, rr as int, mi);
        lemma_prefix_monotone(-1, qi - 1, mi);
    }

    let before = row_prefix(q, rr, m);
    let g0 = q.saturating_sub(rr + m);
    let g1 = if q - rr < m { q - rr } else { m };

    let parity = (rr - r0) & 1u32;
    let gap = rr - r0;
    assert(parity == gap % 2) by (bit_vector)
        requires
            parity == gap & 1u32,
    ;

    let j = if parity == 0 {
        gg.saturating_sub(g0)
    } else {
        g1.saturating_sub(gg)
    };

    assert(g0 == green_lo(qi, rr as int, mi));
    assert(g1 == green_hi(qi, rr as int, mi));
    assert(r0 == row_lo(qi, mi));
    assert(j == spec_green_rank(qi, rr as int, gg as int, mi));
    let local = before + j;
    let q_sub = (q as i32) - 1;
    let base = prefix(q_sub as i64, m as i64);
    assert(base == spec_prefix(qi - 1, mi));
    (base as u32) + local
}

/// Whether the position of the point `p` of the cube `[0, m]^3` along the
/// walk fits a `u32`, as [`encode_n`] asks.
pub fn position_fits(p: Rgb, m: u32) -> (res: bool)
    requires
        m <= MAX_CUBE_SIDE,
        in_cube(p.r as int, p.g as int, p.b as int, m as int),
    ensures
        res == (spec_serpentine_index(p.r as int, p.g as int, p.b as int, m as int) <= u32::MAX),
{
    let q = p.r as u32 + p.g as u32 + p.b as u32;
    let ghost (qi, mi) = (q as int, m as int);
    proof {
        lemma_point_position(p.r as int, p.g as int, p.b as int, mi);
        lemma_row_prefix_bounds(qi, p.r as int, mi);
        lemma_prefix_monotone(-1, qi - 1, mi);
    }
    let q_sub = (q as i32) - 1;
    let base = prefix(q_sub as i64, m as i64);
    if base > 0xffff_ffffi64 {
        return false;
    }
    proof {
        lemma_small_shell(qi, mi);
    }
    let (r0, _rmax) = row_range(q, m);
    let rr = p.r as u32;
    let gg = p.g as u32;
    let before = row_prefix(q, rr, m);
    let g0 = q.saturating_sub(rr + m);
    let g1 = if q - rr < m { q - rr } else { m };
    let parity = (rr - r0) & 1u32;
    let gap = rr - r0;
    assert(parity == gap % 2) by (bit_vector)
        requires
            parity == gap & 1u32,
    ;
    let j = if parity == 0 {
        gg.saturating_sub(g0)
    } else {
        g1.saturating_sub(gg)
    };
    assert(j == spec_green_rank(qi, rr as int, gg as int, mi));
    (base as u64) + (before as u64) + (j as u64) <= 0xffff_ffffu64
}

/// The components of the point at position `n` of the walk of `[0, m]^3`
/// (see [`decode_n`]).
pub fn wasm_decode_n(n: u32, m: u32) -> (res: Vec<u16>)
    requires
        m <= MAX_CUBE_SIDE,
        n < (m + 1) * (m + 1) * (m + 1) + m,
    ensures
        res@.len() == 3,
        n < (m + 1) * (m + 1) * (m + 1) ==> {
            &&& in_cube(res@[0] as int, res@[1] as int, res@[2] as int, m as int)
            &&& spec_serpentine_index(res@[0] as int, res@[1] as int, res@[2] as int, m as int) == n
        },
        n >= (m + 1) * (m + 1) * (m + 1) ==> (res@[0] as int, res@[1] as int, res@[2] as int) == past_end_point(
            n as int,
            m as int,
        ),
{
    let rgb = decode_n(n, m);
    let mut out: Vec<u16> = Vec::new();
    out.push(rgb.r);
    out.push(rgb.g);
    out.push(rgb.b);
    out
}

/// Position of the point `(r, g, b)` along the walk of `[0, m]^3`, for a
/// point whose position fits a `u32`.
pub fn wasm_encode_n(r: u16, g: u16, b: u16, m: u32) -> (res: u32)
    requires
        m <= MAX_CUBE_SIDE,
        in_cube(r as int, g as int, b as int, m as int),
        spec_serpentine_index(r as int, g as int, b as int, m as int) <= u32::MAX,
    ensures
        res == spec_serpentine_index(r as int, g as int, b as int, m as int),
{
    encode_n(Rgb { r, g, b }, m)
}

/// Nearest integer to `v * 255 / 40` (halves rounded up), saturated at 255:
/// a coordinate of the cube `[0, 40]^3` spread over the byte range.
pub open spec fn spec_scale_coordinate(v: int) -> int {
    min_int((51 * v + 4) / 8, 255)
}

/// Nearest integer to `v * 40 / 255`: a byte brought back to `[0, 40]`.
pub open spec fn spec_unscale_coordinate(v: int) -> int {
    (16 * v + 51) / 102
}

/// Spreads a coordinate of the cube `[0, 40]^3` over the byte range.
pub fn scale_coordinate(val: u16) -> (res: u8)
    ensures
        res == spec_scale_coordinate(val as int),
{
    let x = (val as u32) * 51 + 4;
    let q = x / 8;
    if q > 255 { 255 } else { q as u8 }
}

/// Brings a byte back to a coordinate of the cube `[0, 40]^3`.
pub fn unscale_coordinate(val: u8) -> (res: u16)
    ensures
        res == spec_unscale_coordinate(val as int),
        res <= 40,
{
    (((val as u32) * 16 + 51) / 102) as u16
}

/// Unscaling a scaled coordinate of the cube `[0, 40]^3` gives it back.
pub proof fn lemma_unscale_of_scale(v: int)
    requires
        0 <= v <= 40,
    ensures
        spec_unscale_coordinate(spec_scale_coordinate(v)) == v,
{
}

} // verus!

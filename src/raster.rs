use vstd::prelude::*;
use vstd::arithmetic::div_mod::{
    lemma_div_is_ordered,
    lemma_div_plus_one,
    lemma_div_multiples_vanish_fancy,
    lemma_div_pos_is_pos,
};
use crate::canvas::{Canvas, PixelTriangle, Point, Raster, put};

verus! {

pub open spec fn abs(v: int) -> int {
    if v < 0 {
        -v
    } else {
        v
    }
}

/// `n / d` rounded to the nearest integer, halves away from zero (0 when `d` is 0).
pub open spec fn round_div(n: int, d: int) -> int {
    if d <= 0 {
        0
    } else if n >= 0 {
        (2 * n + d) / (2 * d)
    } else {
        -((-2 * n + d) / (2 * d))
    }
}

/// The point `s + (e - s) * i / n`, `i / n` of the way from `s` to `e`, rounded to
/// the nearest integer, halves away from zero (`s` itself when `n` is 0).
pub open spec fn lerp(s: int, e: int, i: int, n: int) -> int {
    if n <= 0 {
        s
    } else {
        round_div(s * n + i * (e - s), n)
    }
}

/// Lexicographic order on `(x, y, z)`: a line is always walked from its smaller end.
pub open spec fn point_le(a: Point, b: Point) -> bool {
    a.x < b.x || (a.x == b.x && (a.y < b.y || (a.y == b.y && a.z <= b.z)))
}

pub open spec fn line_start(a: Point, b: Point) -> Point {
    if point_le(a, b) {
        a
    } else {
        b
    }
}

pub open spec fn line_end(a: Point, b: Point) -> Point {
    if point_le(a, b) {
        b
    } else {
        a
    }
}

/// The number of steps of a line: the larger of its horizontal and vertical extent.
pub open spec fn steps(a: Point, b: Point) -> int {
    let dx = abs(b.x - a.x);
    let dy = abs(b.y - a.y);
    if dx > dy {
        dx
    } else {
        dy
    }
}

/// The `i`-th sample of the line between `a` and `b` (`0 <= i <= steps(a, b)`).
pub open spec fn line_sample(a: Point, b: Point, i: int) -> (int, int, int) {
    let s = line_start(a, b);
    let e = line_end(a, b);
    let n = steps(a, b);
    (lerp(s.x as int, e.x as int, i, n), lerp(s.y as int, e.y as int, i, n), lerp(s.z as int, e.z as int, i, n))
}

/// The first `n` samples of a line, written in order.
pub open spec fn line_run(r: Raster, a: Point, b: Point, c: u32, n: nat) -> Raster
    decreases n,
{
    if n == 0 {
        r
    } else {
        let s = line_sample(a, b, n - 1);
        put(line_run(r, a, b, c, (n - 1) as nat), s.0, s.1, s.2, c)
    }
}

/// Drawing the line between `a` and `b`: every sample from one end to the other.
pub open spec fn line_effect(r: Raster, a: Point, b: Point, c: u32) -> Raster {
    line_run(r, a, b, c, (steps(a, b) + 1) as nat)
}

/// The pixels that the line between `a` and `b` passes through.
pub open spec fn line_pixels(a: Point, b: Point) -> Set<(int, int)> {
    Set::new(
        |p: (int, int)|
            exists|i: int|
                0 <= i <= steps(a, b) && p == (#[trigger] line_sample(a, b, i).0, line_sample(a, b, i).1),
    )
}

/// The corners of `t` ordered by ascending row, keeping the given order among
/// corners on the same row.
pub open spec fn sort_by_y(t: PixelTriangle) -> PixelTriangle {
    let (a, b) = if t.p0.y > t.p1.y {
        (t.p1, t.p0)
    } else {
        (t.p0, t.p1)
    };
    let (a, c) = if a.y > t.p2.y {
        (t.p2, a)
    } else {
        (a, t.p2)
    };
    let (b, c) = if b.y > c.y {
        (c, b)
    } else {
        (b, c)
    };
    PixelTriangle { p0: a, p1: b, p2: c }
}

/// The point `i / n` of the way from `a` to `b`, each coordinate rounded.
pub open spec fn lerp_point(a: Point, b: Point, i: int, n: int) -> Point {
    Point {
        x: lerp(a.x as int, b.x as int, i, n) as i32,
        y: lerp(a.y as int, b.y as int, i, n) as i32,
        z: lerp(a.z as int, b.z as int, i, n) as i32,
    }
}

/// The number of rows that filling `t` draws: the rows from its top corner down
/// to just above its bottom corner.
pub open spec fn fill_height(t: PixelTriangle) -> int {
    let s = sort_by_y(t);
    s.p2.y - s.p0.y
}

/// Row `k` of the fill of `t`, counted down from the top corner: its two ends,
/// one on the short edge for that half and one on the long edge from the top
/// corner to the bottom corner.
pub open spec fn fill_row(t: PixelTriangle, k: int) -> (Point, Point) {
    let s = sort_by_y(t);
    let upper = s.p2.y - s.p1.y;
    let lower = s.p1.y - s.p0.y;
    let long_edge = lerp_point(s.p2, s.p0, k, upper + lower);
    if k < upper {
        (lerp_point(s.p2, s.p1, k, upper), long_edge)
    } else {
        (lerp_point(s.p1, s.p0, k - upper, lower), long_edge)
    }
}

/// The first `k` rows of the fill of `t`, drawn in order.
pub open spec fn fill_run(r: Raster, t: PixelTriangle, c: u32, k: nat) -> Raster
    decreases k,
{
    if k == 0 {
        r
    } else {
        let row = fill_row(t, k - 1);
        line_effect(fill_run(r, t, c, (k - 1) as nat), row.0, row.1, c)
    }
}

/// Filling `t` with color `c`: every row of the fill drawn as a line. A triangle
/// whose corners all lie on one row draws nothing.
pub open spec fn triangle_effect(r: Raster, t: PixelTriangle, c: u32) -> Raster {
    fill_run(r, t, c, fill_height(t) as nat)
}

/// Drawing the three edges `p0-p1`, `p1-p2`, `p2-p0` of `t`.
pub open spec fn wire_effect(r: Raster, t: PixelTriangle, c: u32) -> Raster {
    line_effect(line_effect(line_effect(r, t.p0, t.p1, c), t.p1, t.p2, c), t.p2, t.p0, c)
}

proof fn lemma_sort_by_y(t: PixelTriangle)
    ensures
        sort_by_y(t).p0.y <= sort_by_y(t).p1.y <= sort_by_y(t).p2.y,
        fill_height(t) == 0 <==> (t.p0.y == t.p1.y && t.p1.y == t.p2.y),
{
}

proof fn lemma_lerp_point(a: Point, b: Point, i: int, n: int)
    requires
        0 < n,
        0 <= i <= n,
    ensures
        lerp_point(a, b, i, n).x as int == lerp(a.x as int, b.x as int, i, n),
        lerp_point(a, b, i, n).y as int == lerp(a.y as int, b.y as int, i, n),
        lerp_point(a, b, i, n).z as int == lerp(a.z as int, b.z as int, i, n),
{
    lemma_lerp_between(a.x as int, b.x as int, i, n);
    lemma_lerp_between(a.y as int, b.y as int, i, n);
    lemma_lerp_between(a.z as int, b.z as int, i, n);
}

/// The point `i / n` of the way from `a` to `b`.
fn lerp_point_exec(a: Point, b: Point, i: i64, n: i64) -> (r: Point)
    requires
        0 < n <= 0x1_0000_0000,
        0 <= i <= n,
    ensures
        r == lerp_point(a, b, i as int, n as int),
{
    proof {
        lemma_lerp_point(a, b, i as int, n as int);
    }
    Point {
        x: lerp_exec(a.x, b.x as i64 - a.x as i64, i, n),
        y: lerp_exec(a.y, b.y as i64 - a.y as i64, i, n),
        z: lerp_exec(a.z, b.z as i64 - a.z as i64, i, n),
    }
}

/// The first `k` triangles of `model`, each drawn as a wireframe in color `c`.
pub open spec fn wire_run(r: Raster, model: Seq<PixelTriangle>, c: u32, k: nat) -> Raster
    decreases k,
{
    if k == 0 {
        r
    } else {
        wire_effect(wire_run(r, model, c, (k - 1) as nat), model[k - 1], c)
    }
}

/// The first `k` triangles of `model`, each filled with its own color from `colors`.
pub open spec fn poly_run(r: Raster, model: Seq<PixelTriangle>, colors: Seq<u32>, k: nat) -> Raster
    decreases k,
{
    if k == 0 {
        r
    } else {
        triangle_effect(poly_run(r, model, colors, (k - 1) as nat), model[k - 1], colors[k - 1])
    }
}

/// Relies on `rand::Rng::gen_range` over `rand::thread_rng()`: a value in
/// `[low, high)`; it panics only on an empty range.
#[verifier::external_body]
fn random_in(low: u32, high: u32) -> (r: u32)
    requires
        low < high,
    ensures
        low <= r < high,
{
    rand::Rng::gen_range(&mut rand::thread_rng(), low..high)
}

/// The colors that random filling picks from: packed colors below `0xFFFFFF`.
pub const RANDOM_COLOR_LIMIT: u32 = 0xFF_FFFF;

/// Only the first `k` colors matter to the first `k` fills.
proof fn lemma_poly_run_prefix(r: Raster, model: Seq<PixelTriangle>, c1: Seq<u32>, c2: Seq<u32>, k: nat)
    requires
        c1.len() >= k,
        c2.len() >= k,
        forall|i: int| 0 <= i < k ==> c1[i] == c2[i],
    ensures
        poly_run(r, model, c1, k) == poly_run(r, model, c2, k),
    decreases k,
{
    if k > 0 {
        lemma_poly_run_prefix(r, model, c1, c2, (k - 1) as nat);
    }
}

/// Rounding `n * k / n` gives back `k`.
proof fn lemma_round_div_whole(k: int, n: int)
    requires
        0 < n,
    ensures
        round_div(n * k, n) == k,
{
    if k >= 0 {
        assert(n * k >= 0) by (nonlinear_arith)
            requires
                n > 0,
                k >= 0,
        ;
        assert(2 * (n * k) + n == (2 * n) * k + n) by (nonlinear_arith);
        lemma_div_multiples_vanish_fancy(k, n, 2 * n);
    } else {
        assert(n * k < 0) by (nonlinear_arith)
            requires
                n > 0,
                k < 0,
        ;
        assert(-2 * (n * k) + n == (2 * n) * (-k) + n) by (nonlinear_arith);
        lemma_div_multiples_vanish_fancy(-k, n, 2 * n);
    }
}

/// Rounding is monotone in the numerator.
proof fn lemma_round_div_monotone(t1: int, t2: int, n: int)
    requires
        0 < n,
        t1 <= t2,
    ensures
        round_div(t1, n) <= round_div(t2, n),
{
    if t1 >= 0 {
        lemma_div_is_ordered(2 * t1 + n, 2 * t2 + n, 2 * n);
    } else if t2 < 0 {
        lemma_div_is_ordered(-2 * t2 + n, -2 * t1 + n, 2 * n);
    } else {
        lemma_div_pos_is_pos(-2 * t1 + n, 2 * n);
        lemma_div_pos_is_pos(2 * t2 + n, 2 * n);
    }
}

/// The rounded quotient by `n > 0` is odd: negating the numerator negates it.
proof fn lemma_round_div_neg(t: int, n: int)
    requires
        0 < n,
    ensures
        round_div(-t, n) == -round_div(t, n),
{
    if t == 0 {
        lemma_div_multiples_vanish_fancy(0, n, 2 * n);
    }
}

/// Adding less than `n` to the numerator raises the rounded quotient by at most one.
proof fn lemma_round_div_small_step(t: int, d: int, n: int)
    requires
        0 < n,
        0 <= d < n,
    ensures
        round_div(t + d, n) <= round_div(t, n) + 1,
{
    let u = t + d;
    if t >= 0 {
        lemma_div_is_ordered(2 * u + n, 2 * n + (2 * t + n), 2 * n);
        lemma_div_plus_one(2 * t + n, 2 * n);
    } else if u < 0 {
        lemma_div_is_ordered(-2 * t + n, 2 * n + (-2 * u + n), 2 * n);
        lemma_div_plus_one(-2 * u + n, 2 * n);
    } else {
        // t < 0 <= u < t + n: the two sides of zero are less than a whole step apart.
        lemma_div_pos_is_pos(-2 * t + n, 2 * n);
        if (-2 * t + n) / (2 * n) == 0 {
            lemma_div_is_ordered(2 * u + n, 4 * n - 1, 2 * n);
            lemma_div_multiples_vanish_fancy(1, 2 * n - 1, 2 * n);
        } else {
            if -2 * t + n < 2 * n {
                lemma_div_multiples_vanish_fancy(0, -2 * t + n, 2 * n);
            }
            lemma_div_is_ordered(-2 * t + n, 4 * n - 1, 2 * n);
            lemma_div_multiples_vanish_fancy(1, 2 * n - 1, 2 * n);
            lemma_div_multiples_vanish_fancy(0, 2 * u + n, 2 * n);
        }
    }
}

/// A rounded interpolation from `s` to `e` stays between them, starts at `s` and
/// ends at `e`.
pub proof fn lemma_lerp_between(s: int, e: int, i: int, n: int)
    requires
        0 < n,
        0 <= i <= n,
    ensures
        s <= e ==> s <= lerp(s, e, i, n) <= e,
        e <= s ==> e <= lerp(s, e, i, n) <= s,
        i == 0 ==> lerp(s, e, i, n) == s,
        i == n ==> lerp(s, e, i, n) == e,
        s == e ==> lerp(s, e, i, n) == s,
{
    let d = e - s;
    let t = s * n + i * d;
    lemma_round_div_whole(s, n);
    lemma_round_div_whole(e, n);
    assert(s * n == n * s && e * n == n * e) by (nonlinear_arith);
    assert(e * n == s * n + n * d) by (nonlinear_arith)
        requires
            d == e - s,
    ;
    if d >= 0 {
        assert(s * n <= t <= e * n) by (nonlinear_arith)
            requires
                t == s * n + i * d,
                e * n == s * n + n * d,
                0 <= i <= n,
                d >= 0,
        ;
        lemma_round_div_monotone(n * s, t, n);
        lemma_round_div_monotone(t, n * e, n);
    } else {
        assert(e * n <= t <= s * n) by (nonlinear_arith)
            requires
                t == s * n + i * d,
                e * n == s * n + n * d,
                0 <= i <= n,
                d < 0,
        ;
        lemma_round_div_monotone(n * e, t, n);
        lemma_round_div_monotone(t, n * s, n);
    }
    if i == 0 || d == 0 {
        assert(i * d == 0) by (nonlinear_arith)
            requires
                i == 0 || d == 0,
        ;
    }
}

/// Neighbouring samples of a rounded interpolation differ by at most one.
proof fn lemma_lerp_step(s: int, e: int, i: int, n: int)
    requires
        0 < n,
        0 <= i < n,
        abs(e - s) <= n,
    ensures
        abs(lerp(s, e, i + 1, n) - lerp(s, e, i, n)) <= 1,
{
    let d = e - s;
    let t = s * n + i * d;
    assert(s * n + (i + 1) * d == t + d) by (nonlinear_arith)
        requires
            t == s * n + i * d,
    ;
    if d == n {
        assert(t == n * (s + i) && t + d == n * (s + i + 1)) by (nonlinear_arith)
            requires
                t == s * n + i * d,
                d == n,
        ;
        lemma_round_div_whole(s + i, n);
        lemma_round_div_whole(s + i + 1, n);
    } else if d == -n {
        assert(t == n * (s - i) && t + d == n * (s - i - 1)) by (nonlinear_arith)
            requires
                t == s * n + i * d,
                d == -n,
        ;
        lemma_round_div_whole(s - i, n);
        lemma_round_div_whole(s - i - 1, n);
    } else if d >= 0 {
        lemma_round_div_monotone(t, t + d, n);
        lemma_round_div_small_step(t, d, n);
    } else {
        lemma_round_div_monotone(-t, -t - d, n);
        lemma_round_div_small_step(-t, -d, n);
        lemma_round_div_neg(t, n);
        lemma_round_div_neg(t + d, n);
    }
}

/// Interpolating from `e` back to `s` meets the same rounded points in reverse.
proof fn lemma_lerp_reverse(s: int, e: int, i: int, n: int)
    requires
        0 < n,
    ensures
        lerp(e, s, n - i, n) == lerp(s, e, i, n),
{
    assert(e * n + (n - i) * (s - e) == s * n + i * (e - s)) by (nonlinear_arith);
}

/// The pixels of a line are the rounded points `a + (b - a) * i / n` for
/// `0 <= i <= n`, `n = steps(a, b)`, whichever end is walked from.
pub proof fn lemma_line_pixels_from_a(a: Point, b: Point)
    ensures
        line_pixels(a, b) == Set::new(
            |p: (int, int)|
                exists|i: int|
                    0 <= i <= steps(a, b) && p == (
                        #[trigger] lerp(a.x as int, b.x as int, i, steps(a, b)),
                        lerp(a.y as int, b.y as int, i, steps(a, b)),
                    ),
        ),
{
    let n = steps(a, b);
    let from_a = Set::new(
        |p: (int, int)|
            exists|i: int|
                0 <= i <= n && p == (#[trigger] lerp(a.x as int, b.x as int, i, n), lerp(a.y as int, b.y as int, i, n)),
    );
    if point_le(a, b) {
        assert forall|p: (int, int)| line_pixels(a, b).contains(p) implies from_a.contains(p) by {
            let i = choose|i: int| 0 <= i <= n && p == (#[trigger] line_sample(a, b, i).0, line_sample(a, b, i).1);
            assert(p == (lerp(a.x as int, b.x as int, i, n), lerp(a.y as int, b.y as int, i, n)));
        }
        assert forall|p: (int, int)| from_a.contains(p) implies line_pixels(a, b).contains(p) by {
            let i = choose|i: int| 0 <= i <= n && p == (#[trigger] lerp(a.x as int, b.x as int, i, n), lerp(a.y as int, b.y as int, i, n));
            assert(p == (line_sample(a, b, i).0, line_sample(a, b, i).1));
        }
    } else {
        assert forall|p: (int, int)| line_pixels(a, b).contains(p) implies from_a.contains(p) by {
            let i = choose|i: int| 0 <= i <= n && p == (#[trigger] line_sample(a, b, i).0, line_sample(a, b, i).1);
            if n > 0 {
                lemma_lerp_reverse(a.x as int, b.x as int, n - i, n);
                lemma_lerp_reverse(a.y as int, b.y as int, n - i, n);
            }
            assert(p == (lerp(a.x as int, b.x as int, n - i, n), lerp(a.y as int, b.y as int, n - i, n)));
        }
        assert forall|p: (int, int)| from_a.contains(p) implies line_pixels(a, b).contains(p) by {
            let i = choose|i: int| 0 <= i <= n && p == (#[trigger] lerp(a.x as int, b.x as int, i, n), lerp(a.y as int, b.y as int, i, n));
            if n > 0 {
                lemma_lerp_reverse(a.x as int, b.x as int, i, n);
                lemma_lerp_reverse(a.y as int, b.y as int, i, n);
            }
            assert(p == (line_sample(a, b, n - i).0, line_sample(a, b, n - i).1));
        }
    }
    assert(line_pixels(a, b) =~= from_a);
}

/// A line passes through the pixels of both its ends.
pub proof fn lemma_line_ends(a: Point, b: Point)
    ensures
        line_pixels(a, b).contains((a.x as int, a.y as int)),
        line_pixels(a, b).contains((b.x as int, b.y as int)),
{
    let s = line_start(a, b);
    let e = line_end(a, b);
    let n = steps(a, b);
    if n > 0 {
        lemma_lerp_between(s.x as int, e.x as int, 0, n);
        lemma_lerp_between(s.y as int, e.y as int, 0, n);
    }
    assert(line_sample(a, b, 0).0 == s.x && line_sample(a, b, 0).1 == s.y);
    if n == 0 {
        assert(s.x == e.x && s.y == e.y);
    } else {
        lemma_lerp_between(s.x as int, e.x as int, n, n);
        lemma_lerp_between(s.y as int, e.y as int, n, n);
        assert(line_sample(a, b, n).0 == e.x && line_sample(a, b, n).1 == e.y);
    }
}

/// A line has no gaps: consecutive samples are the same or neighbouring pixels,
/// differing by at most one in each of column and row.
pub proof fn lemma_line_no_gaps(a: Point, b: Point, i: int)
    requires
        0 <= i < steps(a, b),
    ensures
        abs(line_sample(a, b, i + 1).0 - line_sample(a, b, i).0) <= 1,
        abs(line_sample(a, b, i + 1).1 - line_sample(a, b, i).1) <= 1,
{
    let s = line_start(a, b);
    let e = line_end(a, b);
    let n = steps(a, b);
    assert(abs(e.x - s.x) <= n && abs(e.y - s.y) <= n);
    lemma_lerp_step(s.x as int, e.x as int, i, n);
    lemma_lerp_step(s.y as int, e.y as int, i, n);
}

/// `round(s + d * i / n)` for `0 <= i <= n`, `n > 0`.
fn lerp_exec(s: i32, d: i64, i: i64, n: i64) -> (r: i32)
    requires
        0 < n,
        0 <= i <= n,
        i32::MIN <= s + d <= i32::MAX,
    ensures
        r as int == lerp(s as int, s + d, i as int, n as int),
{
    proof {
        lemma_lerp_between(s as int, s + d, i as int, n as int);
        assert(-0x8000_0000_0000_0000_0000_0000i128 <= (s as int) * (n as int) <= 0x8000_0000_0000_0000_0000_0000i128)
            by (nonlinear_arith)
            requires
                0 <= n <= 0x8000_0000_0000_0000,
                -0x8000_0000 <= s <= 0x8000_0000,
        ;
        assert(-0x8000_0000_0000_0000_0000_0000i128 <= (i as int) * (d as int) <= 0x8000_0000_0000_0000_0000_0000i128)
            by (nonlinear_arith)
            requires
                0 <= i <= 0x8000_0000_0000_0000,
                -0x1_0000_0000 <= d <= 0x1_0000_0000,
        ;
    }
    let t: i128 = s as i128 * n as i128 + i as i128 * d as i128;
    let n2: i128 = 2 * n as i128;
    let q: i128 = if t >= 0 {
        (2 * t + n as i128) / n2
    } else {
        -((-2 * t + n as i128) / n2)
    };
    q as i32
}

impl Canvas {
    /// Draws the line between `p0` and `p1` by stepping `steps(p0, p1)` times from
    /// the smaller end to the other, both ends included, each sample rounded to a
    /// pixel. Samples outside the surface are skipped.
    pub fn line(&mut self, p0: Point, p1: Point, color: u32)
        requires
            old(self).wf(),
        ensures
            final(self).wf(),
            final(self)@.wf(),
            final(self)@ == line_effect(old(self)@, p0, p1, color),
    {
        let le = p0.x < p1.x || (p0.x == p1.x && (p0.y < p1.y || (p0.y == p1.y && p0.z <= p1.z)));
        let (s, e) = if le {
            (p0, p1)
        } else {
            (p1, p0)
        };
        let dx: i64 = e.x as i64 - s.x as i64;
        let dy: i64 = e.y as i64 - s.y as i64;
        let dz: i64 = e.z as i64 - s.z as i64;
        let ax: i64 = if dx < 0 {
            -dx
        } else {
            dx
        };
        let ay: i64 = if dy < 0 {
            -dy
        } else {
            dy
        };
        let n: i64 = if ax > ay {
            ax
        } else {
            ay
        };
        assert(n == steps(p0, p1));
        if n == 0 {
            let _ = self.set(s.x, s.y, s.z, color);
            proof {
                assert(line_sample(p0, p1, 0) == (s.x as int, s.y as int, s.z as int));
                reveal_with_fuel(line_run, 2);
            }
            return;
        }
        let mut i: i64 = 0;
        while i <= n
            invariant
                0 <= i <= n + 1,
                0 < n <= 0x1_0000_0000,
                n == steps(p0, p1),
                s == line_start(p0, p1),
                e == line_end(p0, p1),
                dx == e.x - s.x,
                dy == e.y - s.y,
                dz == e.z - s.z,
                self.wf(),
                self@ == line_run(old(self)@, p0, p1, color, i as nat),
            decreases n + 1 - i,
        {
            let x = lerp_exec(s.x, dx, i, n);
            let y = lerp_exec(s.y, dy, i, n);
            let z = lerp_exec(s.z, dz, i, n);
            let _ = self.set(x, y, z, color);
            i = i + 1;
        }
        proof {
            self.lemma_view_wf();
        }
    }

    /// Draws the three edges of `t`.
    pub fn triangle_wire(&mut self, t: PixelTriangle, color: u32)
        requires
            old(self).wf(),
        ensures
            final(self).wf(),
            final(self)@.wf(),
            final(self)@ == wire_effect(old(self)@, t, color),
    {
        self.line(t.p0, t.p1, color);
        self.line(t.p1, t.p2, color);
        self.line(t.p2, t.p0, color);
    }

    /// Fills `t` with `color` row by row (scanline fill). The corners are ordered by
    /// row; each row from the top corner down to just above the bottom one is a line
    /// between the short edge of its half and the long edge.
    pub fn triangle(&mut self, t: PixelTriangle, color: u32)
        requires
            old(self).wf(),
        ensures
            final(self).wf(),
            final(self)@.wf(),
            final(self)@ == triangle_effect(old(self)@, t, color),
    {
        let mut p0 = t.p0;
        let mut p1 = t.p1;
        let mut p2 = t.p2;
        proof {
            lemma_sort_by_y(t);
        }
        if p0.y == p1.y && p0.y == p2.y {
            proof {
                self.lemma_view_wf();
            }
            return;
        }
        if p0.y > p1.y {
            let tmp = p0;
            p0 = p1;
            p1 = tmp;
        }
        if p0.y > p2.y {
            let tmp = p0;
            p0 = p2;
            p2 = tmp;
        }
        if p1.y > p2.y {
            let tmp = p1;
            p1 = p2;
            p2 = tmp;
        }
        assert(sort_by_y(t) == PixelTriangle { p0, p1, p2 });
        let full: i64 = p2.y as i64 - p0.y as i64;
        let upper: i64 = p2.y as i64 - p1.y as i64;
        let lower: i64 = p1.y as i64 - p0.y as i64;
        let mut k: i64 = 0;
        while k < upper
            invariant
                0 <= k <= upper,
                sort_by_y(t) == (PixelTriangle { p0, p1, p2 }),
                full == p2.y - p0.y,
                upper == p2.y - p1.y,
                lower == p1.y - p0.y,
                0 <= upper,
                0 <= lower,
                0 < full <= 0x1_0000_0000,
                self.wf(),
                self@ == fill_run(old(self)@, t, color, k as nat),
            decreases upper - k,
        {
            let a = lerp_point_exec(p2, p1, k, upper);
            let b = lerp_point_exec(p2, p0, k, full);
            self.line(a, b, color);
            k = k + 1;
        }
        while k < full
            invariant
                upper <= k <= full,
                sort_by_y(t) == (PixelTriangle { p0, p1, p2 }),
                full == p2.y - p0.y,
                upper == p2.y - p1.y,
                lower == p1.y - p0.y,
                0 <= upper,
                0 <= lower,
                0 < full <= 0x1_0000_0000,
                self.wf(),
                self@ == fill_run(old(self)@, t, color, k as nat),
            decreases full - k,
        {
            let a = lerp_point_exec(p1, p0, k - upper, lower);
            let b = lerp_point_exec(p2, p0, k, full);
            self.line(a, b, color);
            k = k + 1;
        }
        proof {
            self.lemma_view_wf();
        }
    }
    /// Draws every triangle of `model` as a wireframe, in order.
    pub fn render_wire(&mut self, model: &Vec<PixelTriangle>, color: u32)
        requires
            old(self).wf(),
        ensures
            final(self).wf(),
            final(self)@.wf(),
            final(self)@ == wire_run(old(self)@, model@, color, model@.len()),
    {
        let mut k: usize = 0;
        while k < model.len()
            invariant
                k <= model@.len(),
                self.wf(),
                self@ == wire_run(old(self)@, model@, color, k as nat),
            decreases model@.len() - k,
        {
            self.triangle_wire(model[k], color);
            k = k + 1;
        }
        proof {
            self.lemma_view_wf();
        }
    }

    /// Fills every triangle of `model`, in order, each with the color at the same
    /// position of `colors`.
    pub fn render_poly(&mut self, model: &Vec<PixelTriangle>, colors: &Vec<u32>)
        requires
            old(self).wf(),
            colors@.len() == model@.len(),
        ensures
            final(self).wf(),
            final(self)@.wf(),
            final(self)@ == poly_run(old(self)@, model@, colors@, model@.len()),
    {
        let mut k: usize = 0;
        while k < model.len()
            invariant
                k <= model@.len(),
                colors@.len() == model@.len(),
                self.wf(),
                self@ == poly_run(old(self)@, model@, colors@, k as nat),
            decreases model@.len() - k,
        {
            self.triangle(model[k], colors[k]);
            k = k + 1;
        }
        proof {
            self.lemma_view_wf();
        }
    }

    /// Fills every triangle of `model`, in order, each with a color drawn at random
    /// below `RANDOM_COLOR_LIMIT`.
    pub fn render_poly_rnd_colored(&mut self, model: &Vec<PixelTriangle>)
        requires
            old(self).wf(),
        ensures
            final(self).wf(),
            final(self)@.wf(),
            exists|colors: Seq<u32>|
                {
                    &&& colors.len() == model@.len()
                    &&& forall|i: int| 0 <= i < colors.len() ==> colors[i] < RANDOM_COLOR_LIMIT
                    &&& final(self)@ == poly_run(old(self)@, model@, colors, model@.len())
                },
    {
        let ghost mut colors: Seq<u32> = Seq::empty();
        let mut k: usize = 0;
        while k < model.len()
            invariant
                k <= model@.len(),
                colors.len() == k,
                forall|i: int| 0 <= i < colors.len() ==> colors[i] < RANDOM_COLOR_LIMIT,
                self.wf(),
                self@ == poly_run(old(self)@, model@, colors, k as nat),
            decreases model@.len() - k,
        {
            let color = random_in(0, RANDOM_COLOR_LIMIT);
            self.triangle(model[k], color);
            proof {
                let before = colors;
                colors = colors.push(color);
                lemma_poly_run_prefix(old(self)@, model@, before, colors, k as nat);
            }
            k = k + 1;
        }
        proof {
            self.lemma_view_wf();
        }
    }
}

} // verus!
